//! The textual codec of the braid file format.
//!
//! A braid file holds a strand count on its first token-bearing line and
//! whitespace-separated signed crossings on the lines after it; `#` starts
//! a comment running to the end of the line, and blank lines are ignored.
use crate::braid::{crossing_in_range, crossing_in_range_exec, Braid, BraidView};
use crate::digits::{
    dec_int, dec_nat, i32_token_val, i32_token_valid, lemma_dec_int_reads, lemma_dec_nat_reads,
    push_dec_i32, push_dec_u32, read_i32_token, read_u32_token, u32_token_val, u32_token_valid,
};
use crate::text::{
    chars_of_str, copy_range, lemma_first_hash_is, lemma_line_break_is, lemma_split_ws_append,
    lemma_split_ws_single, line_break, line_tokens, line_tokens_exec, rest_tokens, seq_views,
    split_lines, split_lines_exec, split_ws, strip_comment, token_lines,
};
use vstd::prelude::*;
use vstd::string::StringExecFns;

verus! {

/// The mathematical value of a parse error.
#[verifier::ext_equal]
pub ghost enum ParseErrorView {
    MissingStrandCount,
    InvalidStrandCount,
    InvalidGeneratorToken(Seq<char>),
    GeneratorOutOfRange(int, int),
}

/// Why a braid file failed to parse: no strand count line at all; a strand
/// count line that is not a single decimal integer of at least 2; a crossing
/// token that is not a signed decimal integer (carried verbatim); or a
/// crossing whose magnitude is zero or exceeds the admissible maximum
/// (carried with that maximum).
#[derive(Debug, PartialEq, Eq)]
pub enum ParseError {
    MissingStrandCount,
    InvalidStrandCount,
    InvalidGeneratorToken(String),
    GeneratorOutOfRange(i32, u32),
}

impl View for ParseError {
    type V = ParseErrorView;

    open spec fn view(&self) -> ParseErrorView {
        match self {
            ParseError::MissingStrandCount => ParseErrorView::MissingStrandCount,
            ParseError::InvalidStrandCount => ParseErrorView::InvalidStrandCount,
            ParseError::InvalidGeneratorToken(t) => ParseErrorView::InvalidGeneratorToken(t@),
            ParseError::GeneratorOutOfRange(g, m) => ParseErrorView::GeneratorOutOfRange(
                *g as int,
                *m as int,
            ),
        }
    }
}

/// Reads a token sequence as crossings: the values in order, or the first
/// token that does not read as an `i32`.
pub open spec fn parse_tokens(toks: Seq<Seq<char>>) -> Result<Seq<i32>, Seq<char>>
    decreases toks.len(),
{
    if toks.len() == 0 {
        Ok(Seq::empty())
    } else if !i32_token_valid(toks[0]) {
        Err(toks[0])
    } else {
        match parse_tokens(toks.drop_first()) {
            Ok(rest) => Ok(seq![i32_token_val(toks[0]) as i32] + rest),
            Err(t) => Err(t),
        }
    }
}

/// The first crossing inadmissible for the given strand count, if any.
pub open spec fn first_out_of_range(cs: Seq<i32>, strands: int) -> Option<i32>
    decreases cs.len(),
{
    if cs.len() == 0 {
        None
    } else if !crossing_in_range(cs[0] as int, strands) {
        Some(cs[0])
    } else {
        first_out_of_range(cs.drop_first(), strands)
    }
}

/// What parsing a braid file yields: the braid word it denotes, or the
/// error the text earns, checked in this order: a strand count line must
/// exist, must be a single token reading as an integer of at least 2; every
/// crossing token must read as an `i32`; every crossing must be admissible.
pub open spec fn parse_spec(s: Seq<char>) -> Result<BraidView, ParseErrorView> {
    let tls = token_lines(split_lines(s));
    if tls.len() == 0 {
        Err(ParseErrorView::MissingStrandCount)
    } else if tls[0].len() != 1 {
        Err(ParseErrorView::InvalidStrandCount)
    } else if !u32_token_valid(tls[0][0]) {
        Err(ParseErrorView::InvalidStrandCount)
    } else if u32_token_val(tls[0][0]) < 2 {
        Err(ParseErrorView::InvalidStrandCount)
    } else {
        let sc = u32_token_val(tls[0][0]);
        match parse_tokens(rest_tokens(tls)) {
            Err(t) => Err(ParseErrorView::InvalidGeneratorToken(t)),
            Ok(cs) => match first_out_of_range(cs, sc) {
                Some(g) => Err(ParseErrorView::GeneratorOutOfRange(g as int, sc - 1)),
                None => Ok(BraidView { strands: sc as u32, crossings: cs }),
            },
        }
    }
}

/// The serialized crossing line: the crossings in decimal, separated by
/// single spaces.
pub open spec fn crossings_line(cs: Seq<i32>) -> Seq<char>
    decreases cs.len(),
{
    if cs.len() == 0 {
        Seq::empty()
    } else if cs.len() == 1 {
        dec_int(cs[0] as int)
    } else {
        crossings_line(cs.drop_last()) + seq![' '] + dec_int(cs.last() as int)
    }
}

/// The serialized form of a braid word: the strand count on the first line,
/// the crossings on the second, each line ended by `'\n'`.
pub open spec fn serialize_spec(w: BraidView) -> Seq<char> {
    dec_nat(w.strands as nat) + seq!['\n'] + crossings_line(w.crossings) + seq!['\n']
}

/// Relies on `core::iter::Iterator::collect`: collecting the characters of
/// a vector yields the string holding exactly those characters.
#[verifier::external_body]
fn string_from_chars(v: &Vec<char>) -> (r: String)
    ensures
        r@ == v@,
{
    v.iter().collect()
}

impl Braid {
    /// Renders the braid word in the braid file format.
    pub fn serialize_braid(&self) -> (r: String)
        ensures
            r@ == serialize_spec(self@),
    {
        let mut s = String::new();
        push_dec_u32(&mut s, self.strands);
        proof {
            reveal_strlit("\n");
            reveal_strlit(" ");
        }
        s.append("\n");
        let ghost head = dec_nat(self@.strands as nat) + seq!['\n'];
        proof {
            assert(s@ =~= head + crossings_line(self.crossings@.take(0)));
        }
        let mut k: usize = 0;
        while k < self.crossings.len()
            invariant
                k <= self.crossings@.len(),
                head == dec_nat(self@.strands as nat) + seq!['\n'],
                s@ == head + crossings_line(self.crossings@.take(k as int)),
            decreases self.crossings@.len() - k,
        {
            if k > 0 {
                s.append(" ");
            }
            let ghost mid = s@;
            push_dec_i32(&mut s, self.crossings[k]);
            proof {
                let pre = self.crossings@.take(k as int);
                let cur = self.crossings@.take(k + 1);
                assert(cur.drop_last() =~= pre);
                assert(cur.last() == self.crossings@[k as int]);
                if k == 0 {
                    assert(crossings_line(cur) == dec_int(cur[0] as int));
                    assert(s@ =~= head + crossings_line(cur));
                } else {
                    assert(crossings_line(cur) == crossings_line(pre) + seq![' '] + dec_int(
                        cur.last() as int,
                    ));
                    assert(mid =~= head + crossings_line(pre) + seq![' ']);
                    assert(s@ =~= head + crossings_line(cur));
                }
            }
            k = k + 1;
        }
        s.append("\n");
        proof {
            assert(self.crossings@.take(self.crossings@.len() as int) =~= self.crossings@);
            assert(s@ =~= serialize_spec(self@));
        }
        s
    }

    /// Parses a braid file; the braid it denotes, or the error the text
    /// earns under `parse_spec`. A successfully parsed braid satisfies the
    /// data model's invariants.
    pub fn parse_braid(input: &str) -> (r: Result<Braid, ParseError>)
        ensures
            match r {
                Ok(b) => parse_spec(input@) == Ok::<BraidView, ParseErrorView>(b@) && b.wf(),
                Err(e) => parse_spec(input@) == Err::<BraidView, ParseErrorView>(e@),
            },
    {
        let chars = chars_of_str(input);
        let lines = split_lines_exec(&chars);
        let ghost all_lines = seq_views(lines@);
        let ghost tls = token_lines(all_lines);
        let mut have_first: bool = false;
        let mut first_toks: Vec<Vec<char>> = Vec::new();
        let mut rest: Vec<Vec<char>> = Vec::new();
        let mut li: usize = 0;
        proof {
            assert(all_lines.take(0) =~= Seq::<Seq<char>>::empty());
        }
        while li < lines.len()
            invariant
                li <= lines@.len(),
                all_lines == seq_views(lines@),
                all_lines == split_lines(input@),
                have_first <==> token_lines(all_lines.take(li as int)).len() > 0,
                have_first ==> seq_views(first_toks@) == token_lines(all_lines.take(li as int))[0],
                seq_views(rest@) == rest_tokens(token_lines(all_lines.take(li as int))),
            decreases lines@.len() - li,
        {
            let toks = line_tokens_exec(&lines[li]);
            let ghost prev = token_lines(all_lines.take(li as int));
            let ghost lt = line_tokens(all_lines[li as int]);
            proof {
                assert(all_lines[li as int] == lines@[li as int]@);
                assert(seq_views(toks@) == lt);
                assert(all_lines.take(li + 1).drop_last() =~= all_lines.take(li as int));
                assert(all_lines.take(li + 1).last() == all_lines[li as int]);
                if lt.len() == 0 {
                    assert(token_lines(all_lines.take(li + 1)) == prev);
                } else {
                    assert(token_lines(all_lines.take(li + 1)) == prev.push(lt));
                }
            }
            if toks.len() > 0 {
                proof {
                    assert(lt.len() > 0);
                }
                if !have_first {
                    first_toks = toks;
                    have_first = true;
                    proof {
                        assert(prev.len() == 0);
                        assert(token_lines(all_lines.take(li + 1)) == prev.push(lt));
                        assert(prev.push(lt)[0] == lt);
                        assert(rest_tokens(prev.push(lt)) == Seq::<Seq<char>>::empty());
                    }
                } else {
                    let ghost cur = prev.push(lt);
                    proof {
                        assert(cur.len() >= 2);
                        assert(cur.drop_last() =~= prev);
                        assert(cur.last() == lt);
                        assert(rest_tokens(cur) == rest_tokens(prev) + lt);
                        assert(cur[0] == prev[0]);
                    }
                    let mut q: usize = 0;
                    while q < toks.len()
                        invariant
                            q <= toks@.len(),
                            seq_views(toks@) == lt,
                            seq_views(rest@) == rest_tokens(prev) + lt.take(q as int),
                        decreases toks@.len() - q,
                    {
                        let t = copy_range(&toks[q], 0, toks[q].len());
                        proof {
                            assert(t@ =~= toks@[q as int]@);
                            assert(lt.take(q + 1).drop_last() =~= lt.take(q as int));
                            assert(lt.take(q + 1).last() == lt[q as int]);
                            assert(seq_views(rest@.push(t)) =~= seq_views(rest@) + seq![t@]);
                            assert(seq_views(rest@) + seq![t@] =~= rest_tokens(prev) + lt.take(
                                q + 1,
                            ));
                        }
                        rest.push(t);
                        q = q + 1;
                    }
                    proof {
                        assert(lt.take(lt.len() as int) =~= lt);
                    }
                }
            }
            li = li + 1;
        }
        proof {
            assert(all_lines.take(all_lines.len() as int) =~= all_lines);
        }
        if !have_first {
            return Err(ParseError::MissingStrandCount);
        }
        if first_toks.len() != 1 {
            proof {
                assert(tls[0].len() == seq_views(first_toks@).len());
            }
            return Err(ParseError::InvalidStrandCount);
        }
        proof {
            assert(first_toks@[0]@ == seq_views(first_toks@)[0]);
            assert(first_toks@[0]@ == tls[0][0]);
        }
        let sc: u32 = match read_u32_token(&first_toks[0]) {
            None => {
                return Err(ParseError::InvalidStrandCount);
            },
            Some(v) => v,
        };
        if sc < 2 {
            return Err(ParseError::InvalidStrandCount);
        }
        let ghost toks_all = seq_views(rest@);
        proof {
            assert(toks_all == rest_tokens(tls));
        }
        let mut crossings: Vec<i32> = Vec::new();
        let mut q: usize = 0;
        proof {
            assert(toks_all.skip(0) =~= toks_all);
        }
        while q < rest.len()
            invariant
                q <= toks_all.len(),
                toks_all == seq_views(rest@),
                parse_tokens(toks_all) == (match parse_tokens(toks_all.skip(q as int)) {
                    Ok(v) => Ok::<Seq<i32>, Seq<char>>(crossings@ + v),
                    Err(t) => Err::<Seq<i32>, Seq<char>>(t),
                }),
            decreases toks_all.len() - q,
        {
            let ghost tail = toks_all.skip(q as int);
            proof {
                assert(tail[0] == toks_all[q as int]);
                assert(toks_all[q as int] == rest@[q as int]@);
            }
            match read_i32_token(&rest[q]) {
                None => {
                    proof {
                        assert(parse_tokens(tail) == Err::<Seq<i32>, Seq<char>>(tail[0]));
                    }
                    let tok = string_from_chars(&rest[q]);
                    return Err(ParseError::InvalidGeneratorToken(tok));
                },
                Some(g) => {
                    let ghost cprev = crossings@;
                    crossings.push(g);
                    proof {
                        assert(tail.drop_first() =~= toks_all.skip(q + 1));
                        assert(parse_tokens(tail) == (match parse_tokens(toks_all.skip(q + 1)) {
                            Ok(v) => Ok::<Seq<i32>, Seq<char>>(seq![g] + v),
                            Err(t) => Err::<Seq<i32>, Seq<char>>(t),
                        }));
                        match parse_tokens(toks_all.skip(q + 1)) {
                            Ok(v) => {
                                assert(cprev + (seq![g] + v) =~= crossings@ + v);
                            },
                            Err(t) => {},
                        }
                    }
                },
            }
            q = q + 1;
        }
        proof {
            assert(toks_all.skip(toks_all.len() as int) =~= Seq::<Seq<char>>::empty());
            assert(parse_tokens(Seq::<Seq<char>>::empty()) == Ok::<Seq<i32>, Seq<char>>(
                Seq::empty(),
            ));
            assert(crossings@ + Seq::<i32>::empty() =~= crossings@);
        }
        let ghost cs = crossings@;
        let mut w: usize = 0;
        proof {
            assert(cs.skip(0) =~= cs);
        }
        while w < crossings.len()
            invariant
                w <= cs.len(),
                cs == crossings@,
                first_out_of_range(cs, sc as int) == first_out_of_range(
                    cs.skip(w as int),
                    sc as int,
                ),
                forall|k: int|
                    0 <= k < w ==> crossing_in_range((#[trigger] cs[k]) as int, sc as int),
            decreases cs.len() - w,
        {
            let g: i32 = crossings[w];
            proof {
                assert(cs.skip(w as int)[0] == cs[w as int]);
            }
            if !crossing_in_range_exec(g, sc) {
                proof {
                    assert(first_out_of_range(cs.skip(w as int), sc as int) == Some(g));
                }
                return Err(ParseError::GeneratorOutOfRange(g, sc - 1));
            }
            proof {
                assert(cs.skip(w as int).drop_first() =~= cs.skip(w + 1));
            }
            w = w + 1;
        }
        proof {
            assert(cs.skip(cs.len() as int) =~= Seq::<i32>::empty());
            assert(first_out_of_range(cs, sc as int) is None);
        }
        let b = Braid { strands: sc, crossings };
        proof {
            assert(b@ =~= BraidView { strands: sc, crossings: cs });
        }
        Ok(b)
    }
}

/// No character of a serialized crossing line is a line break or a comment
/// mark.
proof fn lemma_crossings_line_chars(cs: Seq<i32>)
    ensures
        forall|k: int|
            0 <= k < crossings_line(cs).len() ==> (#[trigger] crossings_line(cs)[k]) != '\n'
                && crossings_line(cs)[k] != '#',
    decreases cs.len(),
{
    let l = crossings_line(cs);
    if cs.len() == 1 {
        lemma_dec_int_reads(cs[0] as int);
    } else if cs.len() > 1 {
        lemma_crossings_line_chars(cs.drop_last());
        lemma_dec_int_reads(cs.last() as int);
        let pre = crossings_line(cs.drop_last());
        let last = dec_int(cs.last() as int);
        assert forall|k: int| 0 <= k < l.len() implies (#[trigger] l[k]) != '\n' && l[k]
            != '#' by {
            if k < pre.len() {
                assert(l[k] == pre[k]);
            } else if k == pre.len() {
                assert(l[k] == ' ');
            } else {
                assert(l[k] == last[k - pre.len() - 1]);
            }
        }
    }
}

/// The tokens of a serialized crossing line are exactly the decimal
/// renderings of the crossings, in order.
proof fn lemma_crossings_line_tokens(cs: Seq<i32>)
    ensures
        split_ws(crossings_line(cs)).len() == cs.len(),
        forall|i: int|
            0 <= i < cs.len() ==> split_ws(crossings_line(cs))[i] == dec_int(
                (#[trigger] cs[i]) as int,
            ),
    decreases cs.len(),
{
    let l = crossings_line(cs);
    if cs.len() == 1 {
        lemma_dec_int_reads(cs[0] as int);
        lemma_split_ws_single(dec_int(cs[0] as int));
        assert(l == dec_int(cs[0] as int));
        assert(split_ws(l)[0] == dec_int(cs[0] as int));
    } else if cs.len() > 1 {
        lemma_crossings_line_tokens(cs.drop_last());
        lemma_dec_int_reads(cs.last() as int);
        lemma_split_ws_single(dec_int(cs.last() as int));
        let pre = crossings_line(cs.drop_last());
        let last = dec_int(cs.last() as int);
        lemma_split_ws_append(pre, last);
        assert(l == pre + seq![' '] + last);
        assert(split_ws(l) == split_ws(pre) + split_ws(last));
        assert forall|i: int|
            0 <= i < cs.len() implies split_ws(l)[i] == dec_int((#[trigger] cs[i]) as int) by {
            if i < cs.len() - 1 {
                assert(split_ws(l)[i] == split_ws(pre)[i]);
                assert(cs.drop_last()[i] == cs[i]);
            } else {
                assert(split_ws(l)[i] == split_ws(last)[0]);
            }
        }
    }
}

/// The serialized form of a braid word splits into exactly three lines: the
/// strand count, the crossing line, and an empty final line.
proof fn lemma_serialized_lines(w: BraidView)
    ensures
        split_lines(serialize_spec(w)) == seq![
            dec_nat(w.strands as nat),
            crossings_line(w.crossings),
            Seq::<char>::empty(),
        ],
{
    let d = dec_nat(w.strands as nat);
    let l = crossings_line(w.crossings);
    let s = serialize_spec(w);
    lemma_dec_nat_reads(w.strands as nat);
    lemma_crossings_line_chars(w.crossings);
    assert forall|j: int| 0 <= j < d.len() implies s[j] != '\n' by {
        assert(s[j] == d[j]);
    }
    assert(s[d.len() as int] == '\n');
    lemma_line_break_is(s, d.len() as int);
    assert(split_lines(s) == seq![s.take(d.len() as int)] + split_lines(
        s.skip(d.len() as int + 1),
    ));
    assert(s.take(d.len() as int) =~= d);
    let s2 = s.skip(d.len() as int + 1);
    assert(s2 =~= l + seq!['\n']);
    assert forall|j: int| 0 <= j < l.len() implies s2[j] != '\n' by {
        assert(s2[j] == l[j]);
    }
    assert(s2[l.len() as int] == '\n');
    lemma_line_break_is(s2, l.len() as int);
    assert(split_lines(s2) == seq![s2.take(l.len() as int)] + split_lines(
        s2.skip(l.len() as int + 1),
    ));
    assert(s2.take(l.len() as int) =~= l);
    let s3 = s2.skip(l.len() as int + 1);
    assert(s3 =~= Seq::<char>::empty());
    assert(line_break(s3) == 0) by {
        lemma_line_break_is(s3, 0);
    }
    assert(split_lines(s3) == seq![s3]);
    assert(seq![s.take(d.len() as int)] + (seq![s2.take(l.len() as int)] + seq![s3]) =~= seq![
        d,
        l,
        Seq::<char>::empty(),
    ]);
}

/// The token lines of the serialized form: the strand count token alone on
/// the first, then the crossing tokens.
proof fn lemma_serialized_token_lines(w: BraidView)
    ensures
        w.crossings.len() == 0 ==> token_lines(split_lines(serialize_spec(w))) == seq![
            seq![dec_nat(w.strands as nat)],
        ],
        w.crossings.len() > 0 ==> token_lines(split_lines(serialize_spec(w))) == seq![
            seq![dec_nat(w.strands as nat)],
            split_ws(crossings_line(w.crossings)),
        ],
{
    let d = dec_nat(w.strands as nat);
    let l = crossings_line(w.crossings);
    lemma_serialized_lines(w);
    let lines = seq![d, l, Seq::<char>::empty()];
    lemma_dec_nat_reads(w.strands as nat);
    lemma_crossings_line_chars(w.crossings);
    assert forall|j: int| 0 <= j < d.len() implies d[j] != '#' by {}
    lemma_first_hash_is(d, d.len() as int);
    assert(strip_comment(d) =~= d);
    lemma_first_hash_is(l, l.len() as int);
    assert(strip_comment(l) =~= l);
    lemma_first_hash_is(Seq::<char>::empty(), 0);
    assert(strip_comment(Seq::<char>::empty()) =~= Seq::<char>::empty());
    lemma_split_ws_single(d);
    assert(line_tokens(d) == seq![d]);
    assert(line_tokens(Seq::<char>::empty()).len() == 0);
    assert(line_tokens(l) == split_ws(l));
    lemma_crossings_line_tokens(w.crossings);
    assert(lines.drop_last() =~= seq![d, l]);
    assert(lines.last() == Seq::<char>::empty());
    assert(token_lines(lines) == token_lines(seq![d, l]));
    assert(seq![d, l].drop_last() =~= seq![d]);
    assert(seq![d, l].last() == l);
    assert(seq![d].drop_last() =~= Seq::<Seq<char>>::empty());
    assert(seq![d].last() == d);
    assert(token_lines(Seq::<Seq<char>>::empty()) == Seq::<Seq<Seq<char>>>::empty());
    assert(token_lines(seq![d]) =~= seq![seq![d]]);
    if w.crossings.len() == 0 {
        assert(l == Seq::<char>::empty());
        assert(split_ws(l).len() == 0);
        assert(token_lines(seq![d, l]) == token_lines(seq![d]));
    } else {
        assert(split_ws(l).len() > 0);
        assert(token_lines(seq![d, l]) == token_lines(seq![d]).push(split_ws(l)));
        assert(token_lines(seq![d]).push(split_ws(l)) =~= seq![seq![d], split_ws(l)]);
    }
}

/// A token sequence of exact decimal renderings parses back to exactly
/// those crossings.
proof fn lemma_parse_tokens_exact(toks: Seq<Seq<char>>, cs: Seq<i32>)
    requires
        toks.len() == cs.len(),
        forall|i: int| 0 <= i < cs.len() ==> toks[i] == dec_int((#[trigger] cs[i]) as int),
    ensures
        parse_tokens(toks) == Ok::<Seq<i32>, Seq<char>>(cs),
    decreases cs.len(),
{
    if cs.len() == 0 {
        assert(cs =~= Seq::<i32>::empty());
    } else {
        lemma_dec_int_reads(cs[0] as int);
        assert(toks[0] == dec_int(cs[0] as int));
        assert(i32_token_valid(toks[0]));
        assert(i32_token_val(toks[0]) as i32 == cs[0]);
        assert(forall|i: int|
            0 <= i < cs.len() - 1 ==> toks.drop_first()[i] == toks[i + 1] && cs.drop_first()[i]
                == cs[i + 1]);
        lemma_parse_tokens_exact(toks.drop_first(), cs.drop_first());
        assert(parse_tokens(toks) == Ok::<Seq<i32>, Seq<char>>(
            seq![i32_token_val(toks[0]) as i32] + cs.drop_first(),
        ));
        assert(seq![cs[0]] + cs.drop_first() =~= cs);
    }
}

/// Crossings that all lie in range have no out-of-range member.
proof fn lemma_none_out_of_range(cs: Seq<i32>, strands: int)
    requires
        forall|k: int| 0 <= k < cs.len() ==> crossing_in_range((#[trigger] cs[k]) as int, strands),
    ensures
        first_out_of_range(cs, strands) is None,
    decreases cs.len(),
{
    if cs.len() > 0 {
        assert(forall|k: int| 0 <= k < cs.len() - 1 ==> cs.drop_first()[k] == cs[k + 1]);
        lemma_none_out_of_range(cs.drop_first(), strands);
    }
}

/// Round trip: parsing the serialized form of any braid word satisfying the
/// data model's invariants yields exactly that braid word.
pub proof fn lemma_parse_serialize_round_trip(b: Braid)
    requires
        b.wf(),
    ensures
        parse_spec(serialize_spec(b@)) == Ok::<BraidView, ParseErrorView>(b@),
{
    let w = b@;
    let d = dec_nat(w.strands as nat);
    let l = crossings_line(w.crossings);
    lemma_serialized_token_lines(w);
    let tls = token_lines(split_lines(serialize_spec(w)));
    lemma_dec_nat_reads(w.strands as nat);
    assert(tls[0] == seq![d]);
    assert(tls[0].len() == 1);
    assert(tls[0][0] == d);
    assert(u32_token_valid(d));
    assert(u32_token_val(d) == w.strands);
    assert(u32_token_val(d) >= 2);
    lemma_crossings_line_tokens(w.crossings);
    if w.crossings.len() == 0 {
        assert(tls.len() == 1);
        assert(rest_tokens(tls) == Seq::<Seq<char>>::empty());
        lemma_parse_tokens_exact(rest_tokens(tls), w.crossings);
    } else {
        assert(tls.len() == 2);
        assert(tls.drop_last() =~= seq![seq![d]]);
        assert(rest_tokens(tls) == rest_tokens(seq![seq![d]]) + split_ws(l));
        assert(rest_tokens(seq![seq![d]]) == Seq::<Seq<char>>::empty());
        assert(rest_tokens(tls) =~= split_ws(l));
        lemma_parse_tokens_exact(split_ws(l), w.crossings);
    }
    assert(parse_tokens(rest_tokens(tls)) == Ok::<Seq<i32>, Seq<char>>(w.crossings));
    lemma_none_out_of_range(w.crossings, w.strands as int);
    assert(BraidView { strands: u32_token_val(d) as u32, crossings: w.crossings } =~= w);
}

/// A file whose strand count line reads as an integer below 2 is rejected
/// with `InvalidStrandCount`.
pub proof fn lemma_parse_rejects_small_strand_count(s: Seq<char>)
    requires
        ({
            let tls = token_lines(split_lines(s));
            tls.len() > 0 && tls[0].len() == 1 && u32_token_valid(tls[0][0]) && u32_token_val(
                tls[0][0],
            ) < 2
        }),
    ensures
        parse_spec(s) == Err::<BraidView, ParseErrorView>(ParseErrorView::InvalidStrandCount),
{
}

/// The displayable message of a parse error.
pub open spec fn message_spec(e: ParseErrorView) -> Seq<char> {
    match e {
        ParseErrorView::MissingStrandCount => "Missing strand count"@,
        ParseErrorView::InvalidStrandCount => "Invalid strand count"@,
        ParseErrorView::InvalidGeneratorToken(t) => "Invalid crossing value '"@ + t + "'"@,
        ParseErrorView::GeneratorOutOfRange(g, m) => "Invalid generator "@ + dec_int(g)
            + ": magnitude must be between 1 and "@ + dec_int(m),
    }
}

impl ParseError {
    /// The error surfaced verbatim as a displayable message.
    pub fn message(&self) -> (r: String)
        ensures
            r@ == message_spec(self@),
    {
        match self {
            ParseError::MissingStrandCount => String::from_str("Missing strand count"),
            ParseError::InvalidStrandCount => String::from_str("Invalid strand count"),
            ParseError::InvalidGeneratorToken(t) => {
                let mut s = String::from_str("Invalid crossing value '");
                s.append(t.as_str());
                s.append("'");
                s
            },
            ParseError::GeneratorOutOfRange(g, m) => {
                let mut s = String::from_str("Invalid generator ");
                push_dec_i32(&mut s, *g);
                s.append(": magnitude must be between 1 and ");
                push_dec_u32(&mut s, *m);
                proof {
                    assert(dec_int(*m as int) == dec_nat(*m as nat));
                    assert(s@ =~= message_spec(self@));
                }
                s
            },
        }
    }
}

} // verus!
