//! Splits a shader source file into its named programs.
//!
//! A file holds programs written as `program <name> { <source> }`; the
//! braces of a program may nest.
use vstd::prelude::*;

verus! {

/// Whitespace as Unicode's `White_Space` property defines it.
pub open spec fn is_ws(c: char) -> bool {
    ('\u{9}' <= c && c <= '\u{d}') || c == ' ' || c == '\u{85}' || c == '\u{a0}' || c
        == '\u{1680}' || ('\u{2000}' <= c && c <= '\u{200a}') || c == '\u{2028}' || c
        == '\u{2029}' || c == '\u{202f}' || c == '\u{205f}' || c == '\u{3000}'
}

fn is_whitespace(c: char) -> (r: bool)
    ensures
        r == is_ws(c),
{
    ('\u{9}' <= c && c <= '\u{d}') || c == ' ' || c == '\u{85}' || c == '\u{a0}' || c
        == '\u{1680}' || ('\u{2000}' <= c && c <= '\u{200a}') || c == '\u{2028}' || c
        == '\u{2029}' || c == '\u{202f}' || c == '\u{205f}' || c == '\u{3000}'
}

fn chars_of(s: &str) -> (r: Vec<char>)
    ensures
        r@ == s@,
{
    let mut v: Vec<char> = Vec::new();
    for c in it: s.chars()
        invariant
            v@ == it.seq().subrange(0, it.index() as int),
    {
        v.push(c);
    }
    v
}

/// Why a shader file could not be split into its programs.
#[derive(Debug, Clone, PartialEq, Eq, Hash)]
pub enum ParseShaderError {
    NoVertProgram,
    NoFragProgram,
    MultipleVertShader,
    MultipleFragShader,
    ProgramMissingName,
    UnmatchedBraces,
    MissingOpeningBrace,
    CompileError(String),
    LinkError(String),
}

/// One program of a shader file: its name and the source between its braces,
/// without surrounding whitespace.
#[derive(Debug, Clone)]
pub struct ShaderProgramSrc<'a> {
    pub name: &'a str,
    pub src: &'a str,
}

/// Splits shader files into programs.
#[derive(Debug, Clone)]
pub struct ShaderParser;

pub open spec fn program_keyword() -> Seq<char> {
    seq!['p', 'r', 'o', 'g', 'r', 'a', 'm']
}

/// The first index at or after `from` where the word `program` occurs in `s`.
pub open spec fn find_program(s: Seq<char>, from: int) -> Option<int>
    decreases s.len() - from,
{
    if from < 0 || from + 7 > s.len() {
        None
    } else if s.subrange(from, from + 7) == program_keyword() {
        Some(from)
    } else {
        find_program(s, from + 1)
    }
}

/// The first index at or after `i` that holds whitespace, or `s.len()`.
pub open spec fn next_ws(s: Seq<char>, i: int) -> int
    decreases s.len() - i,
{
    if i < 0 || i >= s.len() {
        s.len() as int
    } else if is_ws(s[i]) {
        i
    } else {
        next_ws(s, i + 1)
    }
}

/// The first index at or after `i` that holds no whitespace, or `s.len()`.
pub open spec fn next_non_ws(s: Seq<char>, i: int) -> int
    decreases s.len() - i,
{
    if i < 0 || i >= s.len() {
        s.len() as int
    } else if !is_ws(s[i]) {
        i
    } else {
        next_non_ws(s, i + 1)
    }
}

/// The first index at or after `i` that holds `ch`, or `s.len()`.
pub open spec fn next_char(s: Seq<char>, ch: char, i: int) -> int
    decreases s.len() - i,
{
    if i < 0 || i >= s.len() {
        s.len() as int
    } else if s[i] == ch {
        i
    } else {
        next_char(s, ch, i + 1)
    }
}

/// Opening braces minus closing braces among the first `k` characters.
pub open spec fn brace_depth(s: Seq<char>, k: int) -> int
    decreases k,
{
    if k <= 0 {
        0
    } else {
        brace_depth(s, k - 1) + if s[k - 1] == '{' {
            1int
        } else if s[k - 1] == '}' {
            -1int
        } else {
            0int
        }
    }
}

/// The first index `m >= from`, `m >= 1`, after which the braces of `s` balance.
pub open spec fn brace_close_from(s: Seq<char>, from: int) -> Option<int>
    decreases s.len() - from,
{
    if from < 1 || from >= s.len() {
        None
    } else if brace_depth(s, from + 1) == 0 {
        Some(from)
    } else {
        brace_close_from(s, from + 1)
    }
}

/// The index of the brace that closes the opening brace at index 0.
pub open spec fn brace_close(s: Seq<char>) -> Option<int> {
    brace_close_from(s, 1)
}

/// The end of `s[..j]` without its trailing whitespace.
pub open spec fn trim_end_index(s: Seq<char>, j: int) -> int
    decreases j,
{
    if j <= 0 {
        0
    } else if !is_ws(s[j - 1]) {
        j
    } else {
        trim_end_index(s, j - 1)
    }
}

/// `s` without leading and trailing whitespace.
pub open spec fn trim(s: Seq<char>) -> Seq<char> {
    if next_non_ws(s, 0) >= s.len() {
        Seq::empty()
    } else {
        s.subrange(next_non_ws(s, 0), trim_end_index(s, s.len() as int))
    }
}

/// The first program of `s`: its name, its trimmed source, the index `b` of
/// its opening brace in `s`, and the index `k` of the matching closing brace
/// counted from the opening one. The program starts at the first occurrence
/// of the word `program`; its name is the next whitespace-separated token and
/// its source lies between the first `{` after the word and the matching `}`.
pub open spec fn first_program(s: Seq<char>) -> Result<(Seq<char>, Seq<char>, int, int), ParseShaderError> {
    match find_program(s, 0) {
        None => Err(ParseShaderError::NoVertProgram),
        Some(p) => {
            let n0 = next_non_ws(s, next_ws(s, p));
            let b = next_char(s, '{', p);
            if n0 >= s.len() {
                Err(ParseShaderError::ProgramMissingName)
            } else if b >= s.len() {
                Err(ParseShaderError::MissingOpeningBrace)
            } else {
                match brace_close(s.subrange(b, s.len() as int)) {
                    None => Err(ParseShaderError::UnmatchedBraces),
                    Some(k) => Ok(
                        (s.subrange(n0, next_ws(s, n0)), trim(s.subrange(b + 1, b + k)), b, k),
                    ),
                }
            }
        },
    }
}

/// The first two programs of `s`, each as name and source; the second is
/// read from just past the closing brace of the first.
pub open spec fn two_programs(s: Seq<char>) -> Result<Seq<(Seq<char>, Seq<char>)>, ParseShaderError> {
    match first_program(s) {
        Err(e) => Err(e),
        Ok((name1, src1, b1, k1)) => match first_program(s.subrange(b1 + k1 + 1, s.len() as int)) {
            Err(e) => Err(e),
            Ok((name2, src2, _, _)) => Ok(seq![(name1, src1), (name2, src2)]),
        },
    }
}

fn copy_range(s: &Vec<char>, lo: usize, hi: usize) -> (r: Vec<char>)
    requires
        lo <= hi <= s@.len(),
    ensures
        r@ == s@.subrange(lo as int, hi as int),
{
    let mut r: Vec<char> = Vec::new();
    let mut i = lo;
    while i < hi
        invariant
            lo <= i <= hi <= s@.len(),
            r@ == s@.subrange(lo as int, i as int),
        decreases hi - i,
    {
        r.push(s[i]);
        i += 1;
        assert(r@ =~= s@.subrange(lo as int, i as int));
    }
    r
}

fn next_ws_index(s: &Vec<char>, i: usize) -> (r: usize)
    requires
        i <= s@.len(),
    ensures
        r == next_ws(s@, i as int),
        i <= r <= s@.len(),
{
    let mut j = i;
    while j < s.len() && !is_whitespace(s[j])
        invariant
            i <= j <= s@.len(),
            next_ws(s@, i as int) == next_ws(s@, j as int),
        decreases s@.len() - j,
    {
        j += 1;
    }
    j
}

fn next_non_ws_index(s: &Vec<char>, i: usize) -> (r: usize)
    requires
        i <= s@.len(),
    ensures
        r == next_non_ws(s@, i as int),
        i <= r <= s@.len(),
{
    let mut j = i;
    while j < s.len() && is_whitespace(s[j])
        invariant
            i <= j <= s@.len(),
            next_non_ws(s@, i as int) == next_non_ws(s@, j as int),
        decreases s@.len() - j,
    {
        j += 1;
    }
    j
}

fn next_char_index(s: &Vec<char>, ch: char, i: usize) -> (r: usize)
    requires
        i <= s@.len(),
    ensures
        r == next_char(s@, ch, i as int),
        i <= r <= s@.len(),
{
    let mut j = i;
    while j < s.len() && s[j] != ch
        invariant
            i <= j <= s@.len(),
            next_char(s@, ch, i as int) == next_char(s@, ch, j as int),
        decreases s@.len() - j,
    {
        j += 1;
    }
    j
}

fn trim_end(s: &Vec<char>) -> (r: usize)
    ensures
        r == trim_end_index(s@, s@.len() as int),
        r <= s@.len(),
{
    let mut j = s.len();
    while j > 0 && is_whitespace(s[j - 1])
        invariant
            j <= s@.len(),
            trim_end_index(s@, s@.len() as int) == trim_end_index(s@, j as int),
        decreases j,
    {
        j -= 1;
    }
    j
}

fn find_program_keyword(s: &Vec<char>) -> (r: Option<usize>)
    ensures
        r matches Some(p) ==> find_program(s@, 0) == Some(p as int) && p + 7 <= s@.len(),
        r is None ==> find_program(s@, 0) is None,
{
    let ghost kw = program_keyword();
    assert(kw[0] == 'p' && kw[1] == 'r' && kw[2] == 'o' && kw[3] == 'g' && kw[4] == 'r' && kw[5]
        == 'a' && kw[6] == 'm' && kw.len() == 7);
    let mut p: usize = 0;
    while s.len() >= 7 && p <= s.len() - 7
        invariant
            p <= s@.len(),
            kw == program_keyword(),
            kw.len() == 7,
            kw[0] == 'p' && kw[1] == 'r' && kw[2] == 'o' && kw[3] == 'g' && kw[4] == 'r' && kw[5]
                == 'a' && kw[6] == 'm',
            find_program(s@, 0) == find_program(s@, p as int),
        decreases s@.len() - p,
    {
        if s[p] == 'p' && s[p + 1] == 'r' && s[p + 2] == 'o' && s[p + 3] == 'g' && s[p + 4] == 'r'
            && s[p + 5] == 'a' && s[p + 6] == 'm' {
            proof {
                let sub = s@.subrange(p as int, p + 7);
                assert forall|k: int| 0 <= k < 7 implies sub[k] == kw[k] by {
                    assert(sub[k] == s@[p + k]);
                    if k == 0 {
                    } else if k == 1 {
                    } else if k == 2 {
                    } else if k == 3 {
                    } else if k == 4 {
                    } else if k == 5 {
                    } else {
                    }
                }
                assert(sub =~= kw);
            }
            return Some(p);
        }
        proof {
            let sub = s@.subrange(p as int, p + 7);
            if sub == kw {
                assert(sub[0] == kw[0] && sub[1] == kw[1] && sub[2] == kw[2] && sub[3] == kw[3]
                    && sub[4] == kw[4] && sub[5] == kw[5] && sub[6] == kw[6]);
            }
        }
        p += 1;
    }
    None
}

/// The index of the brace that closes the one at index 0 of `s`, if any.
fn closing_brace(s: &Vec<char>) -> (r: Option<usize>)
    requires
        s@.len() > 0,
        s@[0] == '{',
    ensures
        r matches Some(k) ==> brace_close(s@) == Some(k as int),
        r is None ==> brace_close(s@) is None,
{
    let mut depth: usize = 1;
    let mut m: usize = 1;
    assert(brace_depth(s@, 1) == 1) by {
        assert(brace_depth(s@, 0) == 0);
    }
    while m < s.len()
        invariant
            1 <= m <= s@.len(),
            depth as int == brace_depth(s@, m as int),
            1 <= depth <= m,
            brace_close(s@) == brace_close_from(s@, m as int),
        decreases s@.len() - m,
    {
        if s[m] == '{' {
            depth = depth + 1;
        } else if s[m] == '}' {
            depth = depth - 1;
            if depth == 0 {
                return Some(m);
            }
        }
        m += 1;
    }
    None
}

/// When `s` has some non-whitespace character, trimming keeps it.
proof fn lemma_trim_end_after_start(s: Seq<char>, j: int)
    requires
        next_non_ws(s, 0) < s.len(),
        next_non_ws(s, 0) < j <= s.len(),
    ensures
        next_non_ws(s, 0) < trim_end_index(s, j) <= j,
    decreases j,
{
    lemma_next_non_ws_is_non_ws(s, 0);
    if is_ws(s[j - 1]) {
        lemma_trim_end_after_start(s, j - 1);
    }
}

proof fn lemma_next_non_ws_is_non_ws(s: Seq<char>, i: int)
    requires
        0 <= i,
        next_non_ws(s, i) < s.len(),
    ensures
        i <= next_non_ws(s, i),
        !is_ws(s[next_non_ws(s, i)]),
    decreases s.len() - i,
{
    if i < s.len() && is_ws(s[i]) {
        lemma_next_non_ws_is_non_ws(s, i + 1);
    }
}

proof fn lemma_next_ws_bounds(s: Seq<char>, i: int)
    requires
        0 <= i <= s.len(),
    ensures
        i <= next_ws(s, i) <= s.len(),
    decreases s.len() - i,
{
    if i < s.len() && !is_ws(s[i]) {
        lemma_next_ws_bounds(s, i + 1);
    }
}

proof fn lemma_brace_close_bounds(s: Seq<char>, from: int)
    requires
        1 <= from,
        brace_close_from(s, from) is Some,
    ensures
        from <= brace_close_from(s, from)->Some_0 < s.len(),
    decreases s.len() - from,
{
    if from < s.len() && brace_depth(s, from + 1) != 0 {
        lemma_brace_close_bounds(s, from + 1);
    }
}

/// The trimmed part of `s` as a pair of indices.
fn trim_bounds(s: &Vec<char>) -> (r: (usize, usize))
    ensures
        r.0 <= r.1 <= s@.len(),
        s@.subrange(r.0 as int, r.1 as int) == trim(s@),
{
    let a = next_non_ws_index(s, 0);
    if a >= s.len() {
        assert(s@.subrange(a as int, a as int) =~= trim(s@));
        return (a, a);
    }
    let e = trim_end(s);
    proof {
        lemma_trim_end_after_start(s@, s@.len() as int);
    }
    (a, e)
}

fn same_chars(a: &Vec<char>, b: &Vec<char>) -> (r: bool)
    ensures
        r == (a@ == b@),
{
    if a.len() != b.len() {
        return false;
    }
    let mut i: usize = 0;
    while i < a.len()
        invariant
            a@.len() == b@.len(),
            i <= a@.len(),
            forall|k: int| 0 <= k < i ==> a@[k] == b@[k],
        decreases a@.len() - i,
    {
        if a[i] != b[i] {
            return false;
        }
        i += 1;
    }
    assert(a@ =~= b@);
    true
}

/// The source of the first program in `programs` called `name`.
pub open spec fn source_named(programs: Seq<(Seq<char>, Seq<char>)>, name: Seq<char>) -> Option<
    Seq<char>,
>
    decreases programs.len(),
{
    if programs.len() == 0 {
        None
    } else if programs[0].0 == name {
        Some(programs[0].1)
    } else {
        source_named(programs.drop_first(), name)
    }
}

pub open spec fn program_views(programs: Seq<ShaderProgramSrc>) -> Seq<(Seq<char>, Seq<char>)> {
    programs.map_values(|p: ShaderProgramSrc| (p.name@, p.src@))
}

fn find_source<'a>(programs: &Vec<ShaderProgramSrc<'a>>, name: &Vec<char>) -> (r: Option<&'a str>)
    ensures
        r matches Some(s) ==> source_named(program_views(programs@), name@) == Some(s@),
        r is None ==> source_named(program_views(programs@), name@) is None,
{
    let ghost views = program_views(programs@);
    assert(views.subrange(0, views.len() as int) =~= views);
    let mut i: usize = 0;
    while i < programs.len()
        invariant
            i <= programs@.len(),
            views == program_views(programs@),
            source_named(views, name@) == source_named(views.subrange(i as int, views.len() as int), name@),
        decreases programs@.len() - i,
    {
        let ghost rest = views.subrange(i as int, views.len() as int);
        assert(rest.drop_first() =~= views.subrange(i + 1, views.len() as int));
        let program_name = chars_of(programs[i].name);
        if same_chars(&program_name, name) {
            return Some(programs[i].src);
        }
        i += 1;
    }
    None
}

/// Reads the first program of `src`, with the index of its opening brace and
/// that of its closing brace counted from the opening one.
fn read_program<'a>(src: &'a str) -> (r: Result<(ShaderProgramSrc<'a>, usize, usize), ParseShaderError>)
    ensures
        match r {
            Ok((program, open, close)) => first_program(src@) == Ok::<
                (Seq<char>, Seq<char>, int, int),
                ParseShaderError,
            >((program.name@, program.src@, open as int, close as int)),
            Err(e) => first_program(src@) == Err::<
                (Seq<char>, Seq<char>, int, int),
                ParseShaderError,
            >(e),
        },
{
    let chars = chars_of(src);
    let ghost s = src@;
    let len = chars.len();
    let p = match find_program_keyword(&chars) {
        Some(p) => p,
        None => return Err(ParseShaderError::NoVertProgram),
    };
    let e0 = next_ws_index(&chars, p);
    proof {
        lemma_next_ws_bounds(s, p as int);
    }
    let n0 = next_non_ws_index(&chars, e0);
    let b = next_char_index(&chars, '{', p);
    if n0 >= len {
        return Err(ParseShaderError::ProgramMissingName);
    }
    if b >= len {
        return Err(ParseShaderError::MissingOpeningBrace);
    }
    let n1 = next_ws_index(&chars, n0);
    proof {
        lemma_next_ws_bounds(s, n0 as int);
        lemma_next_non_ws_is_non_ws(s, e0 as int);
    }
    let tail = copy_range(&chars, b, len);
    proof {
        lemma_char_at_next_char(s, '{', p as int);
    }
    let k = match closing_brace(&tail) {
        Some(k) => k,
        None => return Err(ParseShaderError::UnmatchedBraces),
    };
    proof {
        lemma_brace_close_bounds(tail@, 1);
    }
    let body = copy_range(&chars, b + 1, b + k);
    let (lo, hi) = trim_bounds(&body);
    let name = src.substring_char(n0, n1);
    let program_src = src.substring_char(b + 1 + lo, b + 1 + hi);
    proof {
        assert(program_src@ =~= body@.subrange(lo as int, hi as int));
    }
    Ok((ShaderProgramSrc { name, src: program_src }, b, k))
}

impl ShaderParser {
    /// Splits the contents of a brace-delimited block from `src`, which starts
    /// with `{`: the characters between it and the matching `}`, and the index
    /// of that `}`. Fails when the braces never balance.
    pub fn parse_braces_contents<'a>(src: &'a str) -> (r: Result<(&'a str, usize), ParseShaderError>)
        requires
            src@.len() > 0,
            src@[0] == '{',
        ensures
            match r {
                Ok((contents, k)) => brace_close(src@) == Some(k as int) && contents@
                    == src@.subrange(1, k as int),
                Err(e) => brace_close(src@) is None && e == ParseShaderError::UnmatchedBraces,
            },
    {
        let chars = chars_of(src);
        match closing_brace(&chars) {
            Some(k) => {
                proof {
                    lemma_brace_close_bounds(src@, 1);
                }
                Ok((src.substring_char(1, k), k))
            },
            None => Err(ParseShaderError::UnmatchedBraces),
        }
    }

    /// Reads the first program of `src`; returns it with the index of its
    /// closing brace, counted from its opening brace.
    pub fn parse_program<'a>(src: &'a str) -> (r: Result<(ShaderProgramSrc<'a>, usize), ParseShaderError>)
        ensures
            match r {
                Ok((program, close)) => first_program(src@) is Ok && first_program(src@)->Ok_0.0
                    == program.name@ && first_program(src@)->Ok_0.1 == program.src@
                    && first_program(src@)->Ok_0.3 == close as int,
                Err(e) => first_program(src@) == Err::<
                    (Seq<char>, Seq<char>, int, int),
                    ParseShaderError,
                >(e),
            },
    {
        match read_program(src) {
            Ok((program, _, close)) => Ok((program, close)),
            Err(e) => Err(e),
        }
    }

    /// Reads the first two programs of `shader_src`, the second one after
    /// the closing brace of the first.
    pub fn parse<'a>(shader_src: &'a str) -> (r: Result<Vec<ShaderProgramSrc<'a>>, ParseShaderError>)
        ensures
            match r {
                Ok(programs) => two_programs(shader_src@) == Ok::<
                    Seq<(Seq<char>, Seq<char>)>,
                    ParseShaderError,
                >(program_views(programs@)),
                Err(e) => two_programs(shader_src@) == Err::<
                    Seq<(Seq<char>, Seq<char>)>,
                    ParseShaderError,
                >(e),
            },
    {
        let (first, open, close) = match read_program(shader_src) {
            Ok(found) => found,
            Err(e) => return Err(e),
        };
        let len = shader_src.unicode_len();
        proof {
            lemma_first_program_end(shader_src@);
        }
        let rest = shader_src.substring_char(open + close + 1, len);
        let (second, _, _) = match read_program(rest) {
            Ok(found) => found,
            Err(e) => return Err(e),
        };
        let mut programs: Vec<ShaderProgramSrc<'a>> = Vec::new();
        programs.push(first);
        programs.push(second);
        assert(program_views(programs@) =~= seq![
            (first.name@, first.src@),
            (second.name@, second.src@),
        ]);
        Ok(programs)
    }
    /// The sources of the programs called `vert` and `frag`, the first of
    /// each name.
    pub fn stage_sources<'a>(programs: &Vec<ShaderProgramSrc<'a>>) -> (r: Result<(&'a str, &'a str), ParseShaderError>)
        ensures
            ({
                let views = program_views(programs@);
                let vert = source_named(views, seq!['v', 'e', 'r', 't']);
                let frag = source_named(views, seq!['f', 'r', 'a', 'g']);
                match r {
                    Ok((v, f)) => vert == Some(v@) && frag == Some(f@),
                    Err(e) => (vert is None && e == ParseShaderError::NoVertProgram) || (vert is Some
                        && frag is None && e == ParseShaderError::NoFragProgram),
                }
            }),
    {
        let vert_name = vec!['v', 'e', 'r', 't'];
        let frag_name = vec!['f', 'r', 'a', 'g'];
        assert(vert_name@ =~= seq!['v', 'e', 'r', 't']);
        assert(frag_name@ =~= seq!['f', 'r', 'a', 'g']);
        let vert = match find_source(programs, &vert_name) {
            Some(v) => v,
            None => return Err(ParseShaderError::NoVertProgram),
        };
        let frag = match find_source(programs, &frag_name) {
            Some(f) => f,
            None => return Err(ParseShaderError::NoFragProgram),
        };
        Ok((vert, frag))
    }
}

proof fn lemma_char_at_next_char(s: Seq<char>, ch: char, i: int)
    requires
        0 <= i,
        next_char(s, ch, i) < s.len(),
    ensures
        s[next_char(s, ch, i)] == ch,
        i <= next_char(s, ch, i),
    decreases s.len() - i,
{
    if i < s.len() && s[i] != ch {
        lemma_char_at_next_char(s, ch, i + 1);
    }
}

proof fn lemma_first_program_end(s: Seq<char>)
    requires
        first_program(s) is Ok,
    ensures
        0 <= first_program(s)->Ok_0.2 + first_program(s)->Ok_0.3 + 1 <= s.len(),
{
    let p = find_program(s, 0)->Some_0;
    let b = next_char(s, '{', p);
    lemma_find_program_bounds(s, 0);
    lemma_char_at_next_char(s, '{', p);
    lemma_brace_close_bounds(s.subrange(b, s.len() as int), 1);
}

proof fn lemma_find_program_bounds(s: Seq<char>, from: int)
    requires
        0 <= from,
        find_program(s, from) is Some,
    ensures
        from <= find_program(s, from)->Some_0,
    decreases s.len() - from,
{
    if from + 7 <= s.len() && s.subrange(from, from + 7) != program_keyword() {
        lemma_find_program_bounds(s, from + 1);
    }
}

} // verus!
