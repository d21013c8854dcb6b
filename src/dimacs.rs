//! The DIMACS CNF line parser: a mathematical model of what a sequence of lines
//! parses to, and the executable parser proved against it.
use vstd::prelude::*;
use vstd::string::StrSliceExecFns;
use vstd::string::StringExecFns;
use crate::decimal::{DecimalToken, parse_isize, parse_usize};
use crate::text::{chars_of, split_tokens, tokens, trim, trim_str, views_of};

verus! {

/// The I/O error that reading the input can end in; carried through unchanged.
#[verifier::external_type_specification]
#[verifier::external_body]
pub struct ExIoError(std::io::Error);

/// A parsed DIMACS CNF problem.
#[derive(Debug)]
pub struct CNF {
    pub comments: Vec<String>,
    pub format: String,
    pub variable_count: usize,
    pub clause_count: usize,
    pub clauses: Vec<Vec<isize>>,
}

/// Why a parse failed.
#[derive(Debug)]
pub enum CNFError {
    /// Opening the input or reading a line failed.
    FileError(std::io::Error),
    /// A problem line with a fourth token (carries the text after `p `), or a
    /// count or literal token that does not read as a number (carries the token).
    BadProblemLine(String),
    /// Kept for errors in the shape of a clause line; no line causes it.
    BadClauseLine(String),
    /// A problem line whose format is not `cnf` (carries the format).
    NotCNF(String),
}

/// What one input line amounts to.
#[derive(Debug, PartialEq)]
pub enum CNFLine {
    Problem(String, usize, usize),
    Comment(String),
    Clause(Vec<isize>),
    Ignore,
}

/// Which token of a problem line comes next.
enum ProblemMode {
    Format,
    Variables,
    Clauses,
    Finished,
}

/// The abstract value of a `CNF`.
pub struct CnfModel {
    pub comments: Seq<Seq<char>>,
    pub format: Seq<char>,
    pub variable_count: usize,
    pub clause_count: usize,
    pub clauses: Seq<Seq<isize>>,
}

/// The abstract value of a `CNFLine`.
pub enum LineModel {
    Problem(Seq<char>, usize, usize),
    Comment(Seq<char>),
    Clause(Seq<isize>),
    Ignore,
}

/// The abstract value of the parse errors that the text itself causes.
pub enum Fault {
    NotCnf(Seq<char>),
    BadProblemLine(Seq<char>),
}

pub open spec fn string_views(v: Seq<String>) -> Seq<Seq<char>> {
    v.map_values(|s: String| s@)
}

pub open spec fn clause_views(v: Seq<Vec<isize>>) -> Seq<Seq<isize>> {
    v.map_values(|c: Vec<isize>| c@)
}

impl View for CNF {
    type V = CnfModel;

    open spec fn view(&self) -> CnfModel {
        CnfModel {
            comments: string_views(self.comments@),
            format: self.format@,
            variable_count: self.variable_count,
            clause_count: self.clause_count,
            clauses: clause_views(self.clauses@),
        }
    }
}

impl View for CNFLine {
    type V = LineModel;

    open spec fn view(&self) -> LineModel {
        match self {
            CNFLine::Problem(f, v, c) => LineModel::Problem(f@, *v, *c),
            CNFLine::Comment(s) => LineModel::Comment(s@),
            CNFLine::Clause(l) => LineModel::Clause(l@),
            CNFLine::Ignore => LineModel::Ignore,
        }
    }
}

impl CNFError {
    /// This error is the one that `f` describes.
    pub open spec fn reports(&self, f: Fault) -> bool {
        match f {
            Fault::NotCnf(s) => self is NotCNF && self->NotCNF_0@ == s,
            Fault::BadProblemLine(s) => self is BadProblemLine && self->BadProblemLine_0@ == s,
        }
    }
}

pub open spec fn cnf_word() -> Seq<char> {
    seq!['c', 'n', 'f']
}

/// A trimmed line that starts with `c ` is a comment.
pub open spec fn is_comment_line(t: Seq<char>) -> bool {
    t.len() >= 2 && t[0] == 'c' && t[1] == ' '
}

/// A trimmed line that starts with `p ` is a problem line.
pub open spec fn is_problem_line(t: Seq<char>) -> bool {
    t.len() >= 2 && t[0] == 'p' && t[1] == ' '
}

/// A trimmed line that starts with `-` or a digit from `1` to `9` is a clause.
pub open spec fn is_clause_line(t: Seq<char>) -> bool {
    t.len() > 0 && (t[0] == '-' || (49 <= t[0] as u32 && t[0] as u32 <= 57))
}

/// What the text of a problem line after `p ` gives: the format, the
/// variable count and the clause count, or the first error.
pub open spec fn problem_spec(h: Seq<char>) -> Result<(Seq<char>, usize, usize), Fault> {
    let t = tokens(h);
    if t.len() >= 1 && t[0] != cnf_word() {
        Err(Fault::NotCnf(t[0]))
    } else if t.len() >= 2 && parse_usize(t[1]) is None {
        Err(Fault::BadProblemLine(t[1]))
    } else if t.len() >= 3 && parse_usize(t[2]) is None {
        Err(Fault::BadProblemLine(t[2]))
    } else if t.len() >= 4 {
        Err(Fault::BadProblemLine(h))
    } else {
        Ok(
            (
                if t.len() >= 1 {
                    t[0]
                } else {
                    Seq::empty()
                },
                if t.len() >= 2 {
                    parse_usize(t[1])->0
                } else {
                    0
                },
                if t.len() >= 3 {
                    parse_usize(t[2])->0
                } else {
                    0
                },
            ),
        )
    }
}

/// The literals of the clause tokens `toks`: each `0` is dropped, every other
/// token must read as an `isize`.
pub open spec fn clause_spec(toks: Seq<Seq<char>>) -> Result<Seq<isize>, Fault>
    decreases toks.len(),
{
    if toks.len() == 0 {
        Ok(Seq::empty())
    } else {
        match clause_spec(toks.drop_last()) {
            Ok(lits) => if toks.last() == seq!['0'] {
                Ok(lits)
            } else {
                match parse_isize(toks.last()) {
                    Some(v) => Ok(lits.push(v)),
                    None => Err(Fault::BadProblemLine(toks.last())),
                }
            },
            Err(e) => Err(e),
        }
    }
}

/// What one input line amounts to, or the error it causes.
pub open spec fn line_spec(line: Seq<char>) -> Result<LineModel, Fault> {
    let t = trim(line);
    if is_comment_line(t) {
        Ok(LineModel::Comment(t.subrange(2, t.len() as int)))
    } else if is_problem_line(t) {
        match problem_spec(t.subrange(2, t.len() as int)) {
            Ok((f, v, c)) => Ok(LineModel::Problem(f, v, c)),
            Err(e) => Err(e),
        }
    } else if is_clause_line(t) {
        match clause_spec(tokens(t)) {
            Ok(lits) => Ok(LineModel::Clause(lits)),
            Err(e) => Err(e),
        }
    } else {
        Ok(LineModel::Ignore)
    }
}

pub open spec fn empty_model() -> CnfModel {
    CnfModel {
        comments: Seq::empty(),
        format: Seq::empty(),
        variable_count: 0,
        clause_count: 0,
        clauses: Seq::empty(),
    }
}

/// The effect of one classified line on the problem read so far.
pub open spec fn apply_line(m: CnfModel, l: LineModel) -> CnfModel {
    match l {
        LineModel::Comment(s) => CnfModel { comments: m.comments.push(s), ..m },
        LineModel::Problem(f, v, c) => CnfModel {
            format: f,
            variable_count: v,
            clause_count: c,
            ..m
        },
        LineModel::Clause(lits) => CnfModel { clauses: m.clauses.push(lits), ..m },
        LineModel::Ignore => m,
    }
}

/// The problem after reading `lines` on top of `m`, or the first error.
pub open spec fn parse_from(m: CnfModel, lines: Seq<Seq<char>>) -> Result<CnfModel, Fault>
    decreases lines.len(),
{
    if lines.len() == 0 {
        Ok(m)
    } else {
        match parse_from(m, lines.drop_last()) {
            Ok(p) => match line_spec(lines.last()) {
                Ok(l) => Ok(apply_line(p, l)),
                Err(e) => Err(e),
            },
            Err(e) => Err(e),
        }
    }
}

/// What the lines `lines` parse to.
pub open spec fn parse_spec(lines: Seq<Seq<char>>) -> Result<CnfModel, Fault> {
    parse_from(empty_model(), lines)
}

/// An error in a prefix of the clause tokens is the error of the whole.
proof fn lemma_clause_error_persists(toks: Seq<Seq<char>>, k: int)
    requires
        0 <= k <= toks.len(),
        clause_spec(toks.take(k)) is Err,
    ensures
        clause_spec(toks) == clause_spec(toks.take(k)),
    decreases toks.len() - k,
{
    if k < toks.len() {
        assert(toks.take(k + 1).drop_last() =~= toks.take(k));
        lemma_clause_error_persists(toks, k + 1);
    } else {
        assert(toks.take(k) =~= toks);
    }
}

/// Whether `s` is exactly `cnf`.
fn is_cnf_word(s: &str) -> (r: bool)
    ensures
        r == (s@ == cnf_word()),
{
    let cs = chars_of(s);
    let r = cs.len() == 3 && cs[0] == 'c' && cs[1] == 'n' && cs[2] == 'f';
    if r {
        assert(s@ =~= cnf_word());
    }
    r
}

/// Reads a numeric token; a token that does not read is reported with its text.
pub fn convert_string<T: DecimalToken>(string: &str) -> (r: Result<T, CNFError>)
    ensures
        match T::spec_from_token(string@) {
            Some(v) => r == Ok::<T, CNFError>(v),
            None => r is Err && r->Err_0 is BadProblemLine && r->Err_0->BadProblemLine_0@
                == string@,
        },
{
    match T::from_token(string) {
        Some(value) => Ok(value),
        None => Err(CNFError::BadProblemLine(String::from_str(string))),
    }
}

/// Reads the text of a problem line after its `p ` marker: the format, which
/// must be `cnf`, then the variable count and the clause count. Missing counts
/// stay 0; a fourth token is an error.
pub fn handle_problem(line: &str) -> (r: Result<(String, usize, usize), CNFError>)
    ensures
        match problem_spec(line@) {
            Ok((f, v, c)) => r is Ok && r->Ok_0.0@ == f && r->Ok_0.1 == v && r->Ok_0.2 == c,
            Err(e) => r is Err && r->Err_0.reports(e),
        },
{
    let parts = split_tokens(line);
    let ghost toks = tokens(line@);
    let mut problem_mode = ProblemMode::Format;
    let mut format = String::new();
    let mut variable_count: usize = 0;
    let mut clause_count: usize = 0;
    let mut i: usize = 0;
    while i < parts.len()
        invariant
            views_of(parts@) == toks,
            toks == tokens(line@),
            i <= parts.len(),
            i <= 3,
            match problem_mode {
                ProblemMode::Format => i == 0,
                ProblemMode::Variables => i == 1,
                ProblemMode::Clauses => i == 2,
                ProblemMode::Finished => i == 3,
            },
            i == 0 ==> format@ == Seq::<char>::empty(),
            i >= 1 ==> format@ == toks[0] && toks[0] == cnf_word(),
            i >= 2 ==> parse_usize(toks[1]) == Some(variable_count),
            i < 2 ==> variable_count == 0,
            i >= 3 ==> parse_usize(toks[2]) == Some(clause_count),
            i < 3 ==> clause_count == 0,
        decreases parts.len() - i,
    {
        let part = parts[i];
        assert(part@ == toks[i as int]);
        match problem_mode {
            ProblemMode::Format => {
                format = String::from_str(part);
                if !is_cnf_word(part) {
                    return Err(CNFError::NotCNF(format));
                }
                problem_mode = ProblemMode::Variables;
            },
            ProblemMode::Variables => {
                match convert_string::<usize>(part) {
                    Ok(v) => {
                        variable_count = v;
                    },
                    Err(e) => {
                        return Err(e);
                    },
                }
                problem_mode = ProblemMode::Clauses;
            },
            ProblemMode::Clauses => {
                match convert_string::<usize>(part) {
                    Ok(c) => {
                        clause_count = c;
                    },
                    Err(e) => {
                        return Err(e);
                    },
                }
                problem_mode = ProblemMode::Finished;
            },
            ProblemMode::Finished => {
                return Err(CNFError::BadProblemLine(String::from_str(line)));
            },
        }
        i = i + 1;
    }
    Ok((format, variable_count, clause_count))
}

/// Reads the literals of a clause line: each `0` is dropped, every other token
/// must read as an `isize`. `variable_count` serves as a capacity hint.
pub fn handle_clause(line: &str, variable_count: usize) -> (r: Result<Vec<isize>, CNFError>)
    ensures
        match clause_spec(tokens(line@)) {
            Ok(lits) => r is Ok && r->Ok_0@ == lits,
            Err(e) => r is Err && r->Err_0.reports(e),
        },
{
    let mut variables: Vec<isize> = Vec::new();
    let _ = variables.try_reserve(variable_count);
    let parts = split_tokens(line);
    let ghost toks = tokens(line@);
    let mut i: usize = 0;
    while i < parts.len()
        invariant
            views_of(parts@) == toks,
            toks == tokens(line@),
            i <= parts.len(),
            clause_spec(toks.take(i as int)) == Ok::<Seq<isize>, Fault>(variables@),
        decreases parts.len() - i,
    {
        let part = parts[i];
        assert(part@ == toks[i as int]);
        assert(toks.take(i + 1).drop_last() =~= toks.take(i as int));
        assert(toks.take(i + 1).last() == part@);
        let is_zero = {
            let cs = chars_of(part);
            let z = cs.len() == 1 && cs[0] == '0';
            assert(z == (part@ == seq!['0'])) by {
                if cs.len() == 1 {
                    assert(part@ =~= seq![cs[0]]);
                }
            }
            z
        };
        if !is_zero {
            match convert_string::<isize>(part) {
                Ok(v) => variables.push(v),
                Err(e) => {
                    proof {
                        lemma_clause_error_persists(toks, i + 1);
                    }
                    return Err(e);
                },
            }
        }
        i = i + 1;
    }
    assert(toks.take(parts.len() as int) =~= toks);
    Ok(variables)
}

/// Classifies one input line, after trimming it, and reads it: `c ` starts a
/// comment, `p ` a problem line, `-` or a digit from `1` to `9` a clause; any
/// other line is ignored.
pub fn handle_line_parts(line: &str, variable_count: usize) -> (r: Result<CNFLine, CNFError>)
    ensures
        match line_spec(line@) {
            Ok(l) => r is Ok && r->Ok_0@ == l,
            Err(e) => r is Err && r->Err_0.reports(e),
        },
{
    let trimmed_line = trim_str(line);
    let cs = chars_of(trimmed_line);
    let n = cs.len();
    if n >= 2 && cs[0] == 'c' && cs[1] == ' ' {
        let comment = String::from_str(trimmed_line.substring_char(2, n));
        Ok(CNFLine::Comment(comment))
    } else if n >= 2 && cs[0] == 'p' && cs[1] == ' ' {
        match handle_problem(trimmed_line.substring_char(2, n)) {
            Ok(problem) => Ok(CNFLine::Problem(problem.0, problem.1, problem.2)),
            Err(e) => Err(e),
        }
    } else if n > 0 && (cs[0] == '-' || (49 <= cs[0] as u32 && cs[0] as u32 <= 57)) {
        match handle_clause(trimmed_line, variable_count) {
            Ok(clause) => Ok(CNFLine::Clause(clause)),
            Err(e) => Err(e),
        }
    } else {
        Ok(CNFLine::Ignore)
    }
}

/// An error after a prefix of the lines is the error of the whole.
proof fn lemma_parse_error_persists(m: CnfModel, lines: Seq<Seq<char>>, k: int)
    requires
        0 <= k <= lines.len(),
        parse_from(m, lines.take(k)) is Err,
    ensures
        parse_from(m, lines) == parse_from(m, lines.take(k)),
    decreases lines.len() - k,
{
    if k < lines.len() {
        assert(lines.take(k + 1).drop_last() =~= lines.take(k));
        lemma_parse_error_persists(m, lines, k + 1);
    } else {
        assert(lines.take(k) =~= lines);
    }
}

/// Parses the lines of a DIMACS CNF text, in order, and stops at the first
/// error.
pub fn parse_lines(lines: &Vec<String>) -> (r: Result<CNF, CNFError>)
    ensures
        match parse_spec(string_views(lines@)) {
            Ok(m) => r is Ok && r->Ok_0@ == m,
            Err(e) => r is Err && r->Err_0.reports(e),
        },
{
    let mut cnf = CNF {
        comments: Vec::new(),
        format: String::new(),
        variable_count: 0,
        clause_count: 0,
        clauses: Vec::new(),
    };
    let ghost all = string_views(lines@);
    assert(cnf@ == empty_model()) by {
        assert(string_views(cnf.comments@) =~= Seq::empty());
        assert(clause_views(cnf.clauses@) =~= Seq::empty());
    }
    let mut i: usize = 0;
    while i < lines.len()
        invariant
            all == string_views(lines@),
            i <= lines.len(),
            parse_spec(all.take(i as int)) == Ok::<CnfModel, Fault>(cnf@),
        decreases lines.len() - i,
    {
        let line = lines[i].as_str();
        assert(all.take(i + 1).drop_last() =~= all.take(i as int));
        assert(all.take(i + 1).last() == line@);
        match handle_line_parts(line, cnf.variable_count) {
            Ok(value) => match value {
                CNFLine::Problem(f, v, c) => {
                    cnf.format = f;
                    cnf.variable_count = v;
                    cnf.clause_count = c;
                    let _ = cnf.clauses.try_reserve(c);
                },
                CNFLine::Comment(comment) => {
                    let ghost before = cnf.comments@;
                    cnf.comments.push(comment);
                    assert(string_views(cnf.comments@) =~= string_views(before).push(
                        cnf.comments@.last()@,
                    ));
                },
                CNFLine::Clause(clause) => {
                    let ghost before = cnf.clauses@;
                    cnf.clauses.push(clause);
                    assert(clause_views(cnf.clauses@) =~= clause_views(before).push(
                        cnf.clauses@.last()@,
                    ));
                },
                CNFLine::Ignore => {},
            },
            Err(e) => {
                proof {
                    lemma_parse_error_persists(empty_model(), all, i + 1);
                }
                return Err(e);
            },
        }
        i = i + 1;
    }
    assert(all.take(lines.len() as int) =~= all);
    Ok(cnf)
}

/// Parses the lines that were read before reading stopped, and then reports
/// `read_error`, the error that stopped it, if there was one: an error in the
/// lines read comes first, as it would have been met first.
pub fn parse_read_lines(lines: &Vec<String>, read_error: Option<std::io::Error>) -> (r: Result<
    CNF,
    CNFError,
>)
    ensures
        match parse_spec(string_views(lines@)) {
            Ok(m) => match read_error {
                Some(e) => r is Err && r->Err_0 == CNFError::FileError(e),
                None => r is Ok && r->Ok_0@ == m,
            },
            Err(e) => r is Err && r->Err_0.reports(e),
        },
{
    match parse_lines(lines) {
        Ok(cnf) => match read_error {
            Some(e) => Err(CNFError::FileError(e)),
            None => Ok(cnf),
        },
        Err(e) => Err(e),
    }
}

} // verus!
