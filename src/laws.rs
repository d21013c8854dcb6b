//! Properties of what the parser produces, stated over the model of `dimacs`
//! and proved from it.
use vstd::prelude::*;
use crate::decimal::{
    all_digits, decimal_value, digit_value, is_digit, parse_isize, parse_usize, unsigned_digits,
};
use crate::dimacs::{
    apply_line, clause_spec, cnf_word, empty_model, is_clause_line, is_comment_line,
    is_problem_line, line_spec, parse_from, parse_spec, problem_spec, CnfModel, Fault, LineModel,
};
use crate::text::{is_ascii_ws, is_unicode_ws, split_state, tokens, trim, trim_end, trim_start};

verus! {

/// The number of lines that are comments once trimmed.
pub open spec fn comment_line_count(lines: Seq<Seq<char>>) -> nat
    decreases lines.len(),
{
    if lines.len() == 0 {
        0
    } else {
        comment_line_count(lines.drop_last()) + if is_comment_line(trim(lines.last())) {
            1nat
        } else {
            0nat
        }
    }
}

/// The number of lines that are clauses once trimmed.
pub open spec fn clause_line_count(lines: Seq<Seq<char>>) -> nat
    decreases lines.len(),
{
    if lines.len() == 0 {
        0
    } else {
        clause_line_count(lines.drop_last()) + if is_clause_line(trim(lines.last())) {
            1nat
        } else {
            0nat
        }
    }
}

/// Some line is a problem line once trimmed.
pub open spec fn has_problem_line(lines: Seq<Seq<char>>) -> bool {
    exists|i: int| 0 <= i < lines.len() && is_problem_line(trim(#[trigger] lines[i]))
}

/// A line that is neither a comment, a problem line nor a clause once trimmed.
pub open spec fn is_ignored_line(line: Seq<char>) -> bool {
    let t = trim(line);
    !is_comment_line(t) && !is_problem_line(t) && !is_clause_line(t)
}

/// Every token of a clause line that reads as zero is written `0`.
pub open spec fn zeros_written_plainly(lines: Seq<Seq<char>>) -> bool {
    forall|i: int, j: int|
        0 <= i < lines.len() && is_clause_line(trim(#[trigger] lines[i])) && 0 <= j < tokens(
            trim(lines[i]),
        ).len() && parse_isize(#[trigger] tokens(trim(lines[i]))[j]) == Some(0isize) ==> tokens(
            trim(lines[i]),
        )[j] == seq!['0']
}

/// No clause of `m` holds the literal 0.
pub open spec fn no_zero_literal(m: CnfModel) -> bool {
    forall|i: int, j: int|
        0 <= i < m.clauses.len() && 0 <= j < m.clauses[i].len() ==> #[trigger] m.clauses[i][j]
            != 0
}

/// A trimmed text that is not empty ends in a character that is not whitespace.
pub proof fn lemma_trim_end_last(s: Seq<char>)
    requires
        trim_end(s).len() > 0,
    ensures
        !is_unicode_ws(trim_end(s).last()),
    decreases s.len(),
{
    if s.len() > 0 && is_unicode_ws(s.last()) {
        lemma_trim_end_last(s.drop_last());
    }
}

/// Text whose last character is not ASCII whitespace has a token.
proof fn lemma_tokens_nonempty(s: Seq<char>)
    requires
        s.len() > 0,
        !is_ascii_ws(s.last()),
    ensures
        tokens(s).len() > 0,
{
}

/// The format that a problem line gives is `cnf`.
proof fn lemma_problem_format(line: Seq<char>)
    requires
        is_problem_line(trim(line)),
        line_spec(line) is Ok,
    ensures
        line_spec(line)->Ok_0 is Problem,
        line_spec(line)->Ok_0->Problem_0 == cnf_word(),
{
    let t = trim(line);
    lemma_trim_end_last(trim_start(line));
    assert(t.len() >= 3);
    let h = t.subrange(2, t.len() as int);
    assert(h.last() == t.last());
    lemma_tokens_nonempty(h);
}

proof fn lemma_format(lines: Seq<Seq<char>>)
    requires
        parse_spec(lines) is Ok,
    ensures
        parse_spec(lines)->Ok_0.format == if has_problem_line(lines) {
            cnf_word()
        } else {
            Seq::empty()
        },
    decreases lines.len(),
{
    if lines.len() > 0 {
        let pre = lines.drop_last();
        lemma_format(pre);
        let l = lines.last();
        if is_problem_line(trim(l)) {
            lemma_problem_format(l);
            assert(is_problem_line(trim(lines[lines.len() - 1])));
        } else {
            assert(has_problem_line(lines) == has_problem_line(pre)) by {
                if has_problem_line(lines) {
                    let i = choose|i: int|
                        0 <= i < lines.len() && is_problem_line(trim(#[trigger] lines[i]));
                    assert(pre[i] == lines[i]);
                }
                if has_problem_line(pre) {
                    let i = choose|i: int|
                        0 <= i < pre.len() && is_problem_line(trim(#[trigger] pre[i]));
                    assert(pre[i] == lines[i]);
                }
            }
        }
    }
}

/// Every successful parse of input that holds a problem line has the format `cnf`.
pub proof fn lemma_format_is_cnf(lines: Seq<Seq<char>>)
    requires
        parse_spec(lines) is Ok,
        has_problem_line(lines),
    ensures
        parse_spec(lines)->Ok_0.format == cnf_word(),
{
    lemma_format(lines);
}

/// A successful parse holds one comment for each line that is a comment once
/// trimmed, and one clause for each line that is a clause once trimmed.
pub proof fn lemma_line_counts(lines: Seq<Seq<char>>)
    requires
        parse_spec(lines) is Ok,
    ensures
        parse_spec(lines)->Ok_0.comments.len() == comment_line_count(lines),
        parse_spec(lines)->Ok_0.clauses.len() == clause_line_count(lines),
    decreases lines.len(),
{
    if lines.len() > 0 {
        lemma_line_counts(lines.drop_last());
    }
}

/// The literals that the clause tokens give are not zero where no token that
/// reads as zero is other than `0`.
proof fn lemma_clause_no_zero(toks: Seq<Seq<char>>)
    requires
        clause_spec(toks) is Ok,
        forall|j: int|
            0 <= j < toks.len() && parse_isize(#[trigger] toks[j]) == Some(0isize) ==> toks[j]
                == seq!['0'],
    ensures
        forall|k: int|
            0 <= k < clause_spec(toks)->Ok_0.len() ==> #[trigger] clause_spec(toks)->Ok_0[k]
                != 0,
    decreases toks.len(),
{
    if toks.len() > 0 {
        let pre = toks.drop_last();
        assert forall|j: int|
            0 <= j < pre.len() && parse_isize(#[trigger] pre[j]) == Some(0isize) implies pre[j]
            == seq!['0'] by {
            assert(pre[j] == toks[j]);
        }
        lemma_clause_no_zero(pre);
        assert(toks.last() == toks[toks.len() - 1]);
    }
}

/// No stored literal is zero, where every token of a clause line that reads as
/// zero is written `0` (a token such as `00` or `-0` reads as zero and is kept).
pub proof fn lemma_no_zero_literal(lines: Seq<Seq<char>>)
    requires
        parse_spec(lines) is Ok,
        zeros_written_plainly(lines),
    ensures
        no_zero_literal(parse_spec(lines)->Ok_0),
    decreases lines.len(),
{
    if lines.len() > 0 {
        let pre = lines.drop_last();
        assert(zeros_written_plainly(pre)) by {
            assert forall|i: int, j: int|
                0 <= i < pre.len() && is_clause_line(trim(#[trigger] pre[i])) && 0 <= j
                    < tokens(trim(pre[i])).len() && parse_isize(
                    #[trigger] tokens(trim(pre[i]))[j],
                ) == Some(0isize) implies tokens(trim(pre[i]))[j] == seq!['0'] by {
                assert(pre[i] == lines[i]);
            }
        }
        lemma_no_zero_literal(pre);
        let l = lines.last();
        let t = trim(l);
        if is_clause_line(t) && !is_comment_line(t) && !is_problem_line(t) {
            let toks = tokens(t);
            assert(l == lines[lines.len() - 1]);
            assert forall|j: int|
                0 <= j < toks.len() && parse_isize(#[trigger] toks[j]) == Some(0isize) implies toks[j]
                == seq!['0'] by {
                assert(tokens(trim(lines[lines.len() - 1]))[j] == toks[j]);
            }
            lemma_clause_no_zero(toks);
        }
    }
}

/// A line that is ignored changes nothing, wherever it stands.
pub proof fn lemma_ignored_line(pre: Seq<Seq<char>>, line: Seq<char>, post: Seq<Seq<char>>)
    requires
        is_ignored_line(line),
    ensures
        parse_spec(pre.push(line) + post) == parse_spec(pre + post),
    decreases post.len(),
{
    if post.len() == 0 {
        assert(pre.push(line) + post =~= pre.push(line));
        assert(pre + post =~= pre);
        assert(pre.push(line).drop_last() =~= pre);
    } else {
        lemma_ignored_line(pre, line, post.drop_last());
        assert((pre.push(line) + post).drop_last() =~= pre.push(line) + post.drop_last());
        assert((pre + post).drop_last() =~= pre + post.drop_last());
    }
}

/// The decimal digit for `d < 10`.
pub open spec fn digit_char(d: nat) -> char {
    if d == 0 {
        '0'
    } else if d == 1 {
        '1'
    } else if d == 2 {
        '2'
    } else if d == 3 {
        '3'
    } else if d == 4 {
        '4'
    } else if d == 5 {
        '5'
    } else if d == 6 {
        '6'
    } else if d == 7 {
        '7'
    } else if d == 8 {
        '8'
    } else {
        '9'
    }
}

/// `n` written in decimal, without leading zeros.
pub open spec fn decimal_text(n: nat) -> Seq<char>
    decreases n,
{
    if n < 10 {
        seq![digit_char(n)]
    } else {
        decimal_text(n / 10).push(digit_char(n % 10))
    }
}

/// A literal written in decimal, with `-` when negative.
pub open spec fn literal_text(v: isize) -> Seq<char> {
    if v < 0 {
        seq!['-'] + decimal_text((-v) as nat)
    } else {
        decimal_text(v as nat)
    }
}

/// The words `ws` joined by single spaces.
pub open spec fn join_words(ws: Seq<Seq<char>>) -> Seq<char>
    decreases ws.len(),
{
    if ws.len() == 0 {
        Seq::empty()
    } else if ws.len() == 1 {
        ws[0]
    } else {
        join_words(ws.drop_last()).push(' ') + ws.last()
    }
}

/// The line `c <comment>`.
pub open spec fn comment_text(c: Seq<char>) -> Seq<char> {
    seq!['c', ' '] + c
}

/// The line `p cnf <variables> <clauses>`.
pub open spec fn header_text(m: CnfModel) -> Seq<char> {
    seq!['p', ' '] + join_words(
        seq![
            cnf_word(),
            decimal_text(m.variable_count as nat),
            decimal_text(m.clause_count as nat),
        ],
    )
}

/// The line of a clause: its literals, then `0`, separated by spaces.
pub open spec fn clause_text(c: Seq<isize>) -> Seq<char> {
    join_words(literal_words(c).push(seq!['0']))
}

/// `m` written out as DIMACS CNF lines: its comments, its problem line, its
/// clauses.
pub open spec fn serialize(m: CnfModel) -> Seq<Seq<char>> {
    comment_lines(m.comments) + seq![header_text(m)] + clause_lines(m.clauses)
}

pub open spec fn comment_lines(cs: Seq<Seq<char>>) -> Seq<Seq<char>> {
    cs.map_values(|c: Seq<char>| comment_text(c))
}

pub open spec fn clause_lines(cls: Seq<Seq<isize>>) -> Seq<Seq<char>> {
    cls.map_values(|c: Seq<isize>| clause_text(c))
}

pub open spec fn literal_words(lits: Seq<isize>) -> Seq<Seq<char>> {
    lits.map_values(|v: isize| literal_text(v))
}

/// A word that is not empty and holds no ASCII whitespace.
pub open spec fn is_word(w: Seq<char>) -> bool {
    w.len() > 0 && forall|i: int| 0 <= i < w.len() ==> !is_ascii_ws(#[trigger] w[i])
}

/// A comment that reads back from its line: not empty, and not ending in
/// whitespace.
pub open spec fn is_stable_comment(c: Seq<char>) -> bool {
    c.len() > 0 && !is_unicode_ws(c.last())
}

proof fn lemma_trim_identity(x: Seq<char>)
    requires
        x.len() > 0,
        !is_unicode_ws(x[0]),
        !is_unicode_ws(x.last()),
    ensures
        trim(x) == x,
{
}

proof fn lemma_decimal_text(n: nat)
    ensures
        decimal_text(n).len() > 0,
        all_digits(decimal_text(n)),
        decimal_value(decimal_text(n)) == n,
        n > 0 ==> 49 <= decimal_text(n)[0] as u32 && decimal_text(n)[0] as u32 <= 57,
        is_word(decimal_text(n)),
    decreases n,
{
    let t = decimal_text(n);
    if n >= 10 {
        lemma_decimal_text(n / 10);
        let p = decimal_text(n / 10);
        assert(t.drop_last() =~= p);
        assert(all_digits(t)) by {
            assert forall|i: int| 0 <= i < t.len() implies is_digit(#[trigger] t[i]) by {
                if i < p.len() {
                    assert(t[i] == p[i]);
                }
            }
        }
        assert(digit_value(digit_char(n % 10)) == n % 10);
        assert(decimal_value(t) == decimal_value(p) * 10 + n % 10);
        assert((n / 10) * 10 + n % 10 == n);
        assert(t[0] == p[0]);
    } else {
        assert(t.drop_last() =~= Seq::<char>::empty());
        assert(decimal_value(Seq::<char>::empty()) == 0);
        assert(digit_value(digit_char(n)) == n);
        assert(decimal_value(t) == decimal_value(t.drop_last()) * 10 + digit_value(t.last()));
    }
    assert forall|i: int| 0 <= i < t.len() implies !is_ascii_ws(#[trigger] t[i]) by {
        assert(is_digit(t[i]));
    }
}

proof fn lemma_read_usize(n: usize)
    ensures
        parse_usize(decimal_text(n as nat)) == Some(n),
{
    lemma_decimal_text(n as nat);
    assert(unsigned_digits(decimal_text(n as nat)) == decimal_text(n as nat)) by {
        assert(is_digit(decimal_text(n as nat)[0]));
    }
}

proof fn lemma_literal_text(v: isize)
    requires
        v != 0,
    ensures
        parse_isize(literal_text(v)) == Some(v),
        literal_text(v) != seq!['0'],
        is_word(literal_text(v)),
        literal_text(v)[0] == '-' || (49 <= literal_text(v)[0] as u32 && literal_text(v)[0] as u32
            <= 57),
        !is_unicode_ws(literal_text(v).last()),
{
    let t = literal_text(v);
    if v < 0 {
        let d = decimal_text((-v) as nat);
        lemma_decimal_text((-v) as nat);
        assert(t.drop_first() =~= d);
        assert(t.last() == d.last());
        assert(is_digit(d.last()));
        assert forall|i: int| 0 <= i < t.len() implies !is_ascii_ws(#[trigger] t[i]) by {
            if i > 0 {
                assert(t[i] == d[i - 1]);
            }
        }
    } else {
        lemma_decimal_text(v as nat);
        assert(is_digit(t[0]));
        assert(is_digit(t.last()));
        if t == seq!['0'] {
            assert(t[0] == '0');
        }
    }
}

/// Appending characters that are not whitespace extends the token in progress.
proof fn lemma_split_append_word(p: Seq<char>, w: Seq<char>)
    requires
        forall|i: int| 0 <= i < w.len() ==> !is_ascii_ws(#[trigger] w[i]),
    ensures
        split_state(p + w) == (split_state(p).0, split_state(p).1 + w),
    decreases w.len(),
{
    if w.len() == 0 {
        assert(p + w =~= p);
        assert(split_state(p).1 + w =~= split_state(p).1);
    } else {
        let wd = w.drop_last();
        lemma_split_append_word(p, wd);
        assert((p + w).drop_last() =~= p + wd);
        assert((p + w).last() == w.last());
        assert((split_state(p).1 + wd).push(w.last()) =~= split_state(p).1 + w);
    }
}

proof fn lemma_split_join(ws: Seq<Seq<char>>)
    requires
        ws.len() > 0,
        forall|i: int| 0 <= i < ws.len() ==> is_word(#[trigger] ws[i]),
    ensures
        split_state(join_words(ws)) == (ws.drop_last(), ws.last()),
    decreases ws.len(),
{
    if ws.len() == 1 {
        lemma_split_append_word(Seq::empty(), ws[0]);
        assert(Seq::<char>::empty() + ws[0] =~= ws[0]);
        assert(ws.drop_last() =~= Seq::<Seq<char>>::empty());
    } else {
        let dl = ws.drop_last();
        assert forall|i: int| 0 <= i < dl.len() implies is_word(#[trigger] dl[i]) by {
            assert(dl[i] == ws[i]);
        }
        lemma_split_join(dl);
        let j = join_words(dl);
        assert(j.push(' ').drop_last() =~= j);
        assert(is_word(ws[ws.len() - 1]));
        assert(is_word(dl[dl.len() - 1]));
        assert(split_state(j.push(' ')) == (dl, Seq::<char>::empty())) by {
            assert(dl.drop_last().push(dl.last()) =~= dl);
        }
        lemma_split_append_word(j.push(' '), ws.last());
        assert(Seq::<char>::empty() + ws.last() =~= ws.last());
    }
}

proof fn lemma_tokens_join(ws: Seq<Seq<char>>)
    requires
        ws.len() > 0,
        forall|i: int| 0 <= i < ws.len() ==> is_word(#[trigger] ws[i]),
    ensures
        tokens(join_words(ws)) == ws,
        join_words(ws).len() > 0,
        join_words(ws)[0] == ws[0][0],
        join_words(ws).last() == ws.last().last(),
    decreases ws.len(),
{
    lemma_split_join(ws);
    assert(is_word(ws[ws.len() - 1]));
    assert(ws.drop_last().push(ws.last()) =~= ws);
    assert(is_word(ws[0]));
    if ws.len() > 1 {
        let dl = ws.drop_last();
        assert forall|i: int| 0 <= i < dl.len() implies is_word(#[trigger] dl[i]) by {
            assert(dl[i] == ws[i]);
        }
        lemma_tokens_join(dl);
        assert(dl[0] == ws[0]);
    }
}

/// What the parser produces has comments that read back from their lines and
/// no empty clause.
pub open spec fn has_output_shape(m: CnfModel) -> bool {
    &&& forall|i: int| 0 <= i < m.comments.len() ==> is_stable_comment(#[trigger] m.comments[i])
    &&& forall|i: int| 0 <= i < m.clauses.len() ==> (#[trigger] m.clauses[i]).len() > 0
}

proof fn lemma_split_first(s: Seq<char>)
    requires
        s.len() > 0,
        !is_ascii_ws(s[0]),
    ensures
        (split_state(s).0.len() > 0 && split_state(s).0[0].len() > 0 && split_state(s).0[0][0]
            == s[0]) || (split_state(s).0.len() == 0 && split_state(s).1.len() > 0
            && split_state(s).1[0] == s[0]),
    decreases s.len(),
{
    let p = s.drop_last();
    if s.len() > 1 {
        lemma_split_first(p);
        assert(p[0] == s[0]);
        let (d, c) = split_state(p);
        if is_ascii_ws(s.last()) {
            if c.len() > 0 {
                assert(d.push(c)[0] == if d.len() > 0 {
                    d[0]
                } else {
                    c
                });
            }
        } else {
            assert(c.push(s.last())[0] == if c.len() > 0 {
                c[0]
            } else {
                s.last()
            });
        }
    } else {
        assert(p =~= Seq::<char>::empty());
        assert(split_state(p) == (Seq::<Seq<char>>::empty(), Seq::<char>::empty()));
        assert(s.last() == s[0]);
        assert(Seq::<char>::empty().push(s[0])[0] == s[0]);
    }
}

/// The first token of a text that starts with a non-whitespace character
/// starts with that character.
proof fn lemma_first_token(s: Seq<char>)
    requires
        s.len() > 0,
        !is_ascii_ws(s[0]),
    ensures
        tokens(s).len() > 0,
        tokens(s)[0].len() > 0,
        tokens(s)[0][0] == s[0],
{
    lemma_split_first(s);
}

proof fn lemma_clause_nonempty(toks: Seq<Seq<char>>)
    requires
        clause_spec(toks) is Ok,
        toks.len() > 0,
        toks[0] != seq!['0'],
    ensures
        clause_spec(toks)->Ok_0.len() > 0,
    decreases toks.len(),
{
    if toks.len() > 1 {
        assert(toks.drop_last()[0] == toks[0]);
        lemma_clause_nonempty(toks.drop_last());
    } else {
        assert(toks.drop_last() =~= Seq::<Seq<char>>::empty());
        assert(toks.last() == toks[0]);
    }
}

proof fn lemma_output_shape(lines: Seq<Seq<char>>)
    requires
        parse_spec(lines) is Ok,
    ensures
        has_output_shape(parse_spec(lines)->Ok_0),
    decreases lines.len(),
{
    if lines.len() > 0 {
        let pre = lines.drop_last();
        lemma_output_shape(pre);
        let prev = parse_spec(pre)->Ok_0;
        let m = parse_spec(lines)->Ok_0;
        let l = lines.last();
        let t = trim(l);
        if is_comment_line(t) {
            lemma_trim_end_last(trim_start(l));
            let c = t.subrange(2, t.len() as int);
            assert(c.last() == t.last());
            assert(m.comments == prev.comments.push(c));
            assert forall|i: int| 0 <= i < m.comments.len() implies is_stable_comment(
                #[trigger] m.comments[i],
            ) by {
                if i < prev.comments.len() {
                    assert(m.comments[i] == prev.comments[i]);
                }
            }
        } else if !is_problem_line(t) && is_clause_line(t) {
            lemma_first_token(t);
            let toks = tokens(t);
            if toks[0] == seq!['0'] {
                assert(toks[0][0] == '0');
            }
            lemma_clause_nonempty(toks);
            assert forall|i: int| 0 <= i < m.clauses.len() implies (
            #[trigger] m.clauses[i]).len() > 0 by {
                if i < prev.clauses.len() {
                    assert(m.clauses[i] == prev.clauses[i]);
                }
            }
        }
    }
}

/// Parsing `a + b` is parsing `b` on top of what `a` gives.
proof fn lemma_parse_concat(m: CnfModel, a: Seq<Seq<char>>, b: Seq<Seq<char>>)
    ensures
        parse_from(m, a + b) == match parse_from(m, a) {
            Ok(p) => parse_from(p, b),
            Err(e) => Err(e),
        },
    decreases b.len(),
{
    if b.len() == 0 {
        assert(a + b =~= a);
    } else {
        lemma_parse_concat(m, a, b.drop_last());
        assert((a + b).drop_last() =~= a + b.drop_last());
        assert((a + b).last() == b.last());
    }
}

proof fn lemma_comment_line(c: Seq<char>)
    requires
        is_stable_comment(c),
    ensures
        line_spec(comment_text(c)) == Ok::<LineModel, Fault>(LineModel::Comment(c)),
{
    let x = comment_text(c);
    assert(x.last() == c.last());
    lemma_trim_identity(x);
    assert(x.subrange(2, x.len() as int) =~= c);
}

proof fn lemma_parse_comments(m: CnfModel, cs: Seq<Seq<char>>)
    requires
        forall|i: int| 0 <= i < cs.len() ==> is_stable_comment(#[trigger] cs[i]),
    ensures
        parse_from(m, comment_lines(cs)) == Ok::<CnfModel, Fault>(
            CnfModel { comments: m.comments + cs, ..m },
        ),
    decreases cs.len(),
{
    if cs.len() == 0 {
        assert(m.comments + cs =~= m.comments);
        assert(comment_lines(cs) =~= Seq::<Seq<char>>::empty());
    } else {
        let dl = cs.drop_last();
        assert forall|i: int| 0 <= i < dl.len() implies is_stable_comment(#[trigger] dl[i]) by {
            assert(dl[i] == cs[i]);
        }
        lemma_parse_comments(m, dl);
        assert(comment_lines(cs).drop_last() =~= comment_lines(dl));
        assert(is_stable_comment(cs[cs.len() - 1]));
        lemma_comment_line(cs.last());
        assert((m.comments + dl).push(cs.last()) =~= m.comments + cs);
    }
}

proof fn lemma_header_line(m: CnfModel)
    ensures
        line_spec(header_text(m)) == Ok::<LineModel, Fault>(
            LineModel::Problem(cnf_word(), m.variable_count, m.clause_count),
        ),
{
    let v = decimal_text(m.variable_count as nat);
    let c = decimal_text(m.clause_count as nat);
    let ws = seq![cnf_word(), v, c];
    lemma_decimal_text(m.variable_count as nat);
    lemma_decimal_text(m.clause_count as nat);
    assert(is_word(cnf_word()));
    assert forall|i: int| 0 <= i < ws.len() implies is_word(#[trigger] ws[i]) by {}
    lemma_tokens_join(ws);
    let j = join_words(ws);
    let x = header_text(m);
    assert(x.last() == j.last());
    assert(is_digit(c[c.len() - 1]));
    lemma_trim_identity(x);
    assert(x.subrange(2, x.len() as int) =~= j);
    lemma_read_usize(m.variable_count);
    lemma_read_usize(m.clause_count);
    assert(problem_spec(j) == Ok::<(Seq<char>, usize, usize), Fault>(
        (cnf_word(), m.variable_count, m.clause_count),
    ));
}

proof fn lemma_literal_words(lits: Seq<isize>)
    requires
        forall|i: int| 0 <= i < lits.len() ==> #[trigger] lits[i] != 0,
    ensures
        clause_spec(literal_words(lits)) == Ok::<Seq<isize>, Fault>(lits),
    decreases lits.len(),
{
    let ws = literal_words(lits);
    if lits.len() == 0 {
        assert(ws =~= Seq::<Seq<char>>::empty());
        assert(lits =~= Seq::<isize>::empty());
    } else {
        let dl = lits.drop_last();
        assert forall|i: int| 0 <= i < dl.len() implies #[trigger] dl[i] != 0 by {
            assert(dl[i] == lits[i]);
        }
        lemma_literal_words(dl);
        assert(ws.drop_last() =~= literal_words(dl));
        assert(lits[lits.len() - 1] != 0);
        lemma_literal_text(lits.last());
        assert(dl.push(lits.last()) =~= lits);
    }
}

proof fn lemma_clause_line(lits: Seq<isize>)
    requires
        lits.len() > 0,
        forall|i: int| 0 <= i < lits.len() ==> #[trigger] lits[i] != 0,
    ensures
        line_spec(clause_text(lits)) == Ok::<LineModel, Fault>(
            LineModel::Clause(lits),
        ),
{
    let lw = literal_words(lits);
    let ws = lw.push(seq!['0']);
    assert forall|i: int| 0 <= i < ws.len() implies is_word(#[trigger] ws[i]) by {
        if i < lits.len() {
            lemma_literal_text(lits[i]);
        }
    }
    lemma_tokens_join(ws);
    let x = clause_text(lits);
    lemma_literal_text(lits[0]);
    assert(x[0] == literal_text(lits[0])[0]);
    assert(x.last() == '0');
    lemma_trim_identity(x);
    assert(ws.drop_last() =~= lw);
    lemma_literal_words(lits);
}

proof fn lemma_parse_clauses(m: CnfModel, cls: Seq<Seq<isize>>)
    requires
        forall|i: int| 0 <= i < cls.len() ==> (#[trigger] cls[i]).len() > 0,
        forall|i: int, j: int| 0 <= i < cls.len() && 0 <= j < cls[i].len() ==> #[trigger] cls[i][j] != 0,
    ensures
        parse_from(m, clause_lines(cls)) == Ok::<CnfModel, Fault>(
            CnfModel { clauses: m.clauses + cls, ..m },
        ),
    decreases cls.len(),
{
    if cls.len() == 0 {
        assert(m.clauses + cls =~= m.clauses);
        assert(clause_lines(cls) =~= Seq::<Seq<char>>::empty());
    } else {
        let dl = cls.drop_last();
        assert forall|i: int| 0 <= i < dl.len() implies (#[trigger] dl[i]).len() > 0 by {
            assert(dl[i] == cls[i]);
        }
        assert forall|i: int, j: int| 0 <= i < dl.len() && 0 <= j < dl[i].len() implies #[trigger] dl[i][j] != 0 by {
            assert(dl[i] == cls[i]);
        }
        lemma_parse_clauses(m, dl);
        assert(clause_lines(cls).drop_last() =~= clause_lines(dl));
        let last = cls.last();
        assert(last == cls[cls.len() - 1]);
        assert(last.len() > 0);
        assert forall|j: int| 0 <= j < last.len() implies #[trigger] last[j] != 0 by {
            assert(cls[cls.len() - 1][j] != 0);
        }
        lemma_clause_line(last);
        assert((m.clauses + dl).push(last) =~= m.clauses + cls);
    }
}

/// Writing a parsed problem out as DIMACS CNF (`c <comment>` for each comment,
/// then `p cnf <V> <C>`, then each clause as its literals followed by ` 0`) and
/// parsing that again gives back the same problem. This holds where the input
/// had a problem line, so that the format is `cnf`, and where no stored literal
/// is zero, as a zero would end its clause when read back.
pub proof fn lemma_round_trip(lines: Seq<Seq<char>>)
    requires
        parse_spec(lines) is Ok,
        has_problem_line(lines),
        no_zero_literal(parse_spec(lines)->Ok_0),
    ensures
        parse_spec(serialize(parse_spec(lines)->Ok_0)) == parse_spec(lines),
{
    let m = parse_spec(lines)->Ok_0;
    lemma_format(lines);
    lemma_output_shape(lines);
    let cl = comment_lines(m.comments);
    let kl = clause_lines(m.clauses);
    let h = header_text(m);
    assert(serialize(m) =~= cl.push(h) + kl);
    let e = empty_model();
    lemma_parse_concat(e, cl.push(h), kl);
    lemma_parse_comments(e, m.comments);
    let m1 = CnfModel { comments: e.comments + m.comments, ..e };
    assert(cl.push(h).drop_last() =~= cl);
    assert(cl.push(h).last() == h);
    lemma_header_line(m);
    let m2 = apply_line(m1, LineModel::Problem(cnf_word(), m.variable_count, m.clause_count));
    assert(parse_from(e, cl.push(h)) == Ok::<CnfModel, Fault>(m2));
    assert forall|i: int, j: int|
        0 <= i < m.clauses.len() && 0 <= j < m.clauses[i].len() implies #[trigger] m.clauses[i][j]
        != 0 by {}
    lemma_parse_clauses(m2, m.clauses);
    let m3 = CnfModel { clauses: m2.clauses + m.clauses, ..m2 };
    assert(m3.comments =~= m.comments);
    assert(m3.clauses =~= m.clauses);
    assert(m3 == m);
}

} // verus!
