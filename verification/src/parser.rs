//! The build-file parser.
//!
//! A build file is a sequence of blank lines, `export` statements and target
//! blocks. A target block is a header line — a name, a `:`, then whitespace
//! separated dependency names up to the newline — followed by instruction
//! lines, each beginning with a tab. Parsing is all-or-nothing: the first hard
//! error aborts the parse.
//!
//! An `export` statement's value is the captured output of a shell command,
//! which the library does not run itself: [`ParseSession::advance`] hands the
//! command out and [`ParseSession::supply_output`] takes the captured output
//! back, so the caller owns all process spawning.

use vstd::prelude::*;

verus! {

use crate::{BuildTarget, SpecTarget};
use crate::subst::{BuildInstruction, GlobalTable, subst, slice_chars};

/// A hard parse error; any of these aborts the whole parse.
#[derive(Clone, Copy, PartialEq, Eq, Structural, Debug)]
pub enum ParseError {
    /// A `:` with no target name before it.
    MissingTargetName,
    /// Whitespace inside a target name before its `:`.
    NameSeparator,
    /// End of input inside a target name.
    UnterminatedName,
    /// End of input inside a dependency list.
    UnexpectedEnd,
    /// An `export` with no variable name.
    ExportMissingName,
}

/// The position of the next newline at or after `i`, or the end of the text.
pub open spec fn line_end(s: Seq<char>, i: int) -> int
    decreases s.len() - i,
{
    if i < 0 || i >= s.len() {
        s.len() as int
    } else if s[i] == '\n' {
        i
    } else {
        line_end(s, i + 1)
    }
}

/// The position of the first character at or after `i` that is not a tab.
pub open spec fn skip_tabs(s: Seq<char>, i: int) -> int
    decreases s.len() - i,
{
    if i < 0 || i >= s.len() {
        s.len() as int
    } else if s[i] == '\t' {
        skip_tabs(s, i + 1)
    } else {
        i
    }
}

/// The position of the first character at or after `i` that is not a space.
pub open spec fn skip_spaces(s: Seq<char>, i: int) -> int
    decreases s.len() - i,
{
    if i < 0 || i >= s.len() {
        s.len() as int
    } else if s[i] == ' ' {
        skip_spaces(s, i + 1)
    } else {
        i
    }
}

/// The position of the first character at or after `i` that is not a newline.
pub open spec fn skip_newlines(s: Seq<char>, i: int) -> int
    decreases s.len() - i,
{
    if i < 0 || i >= s.len() {
        s.len() as int
    } else if s[i] == '\n' {
        skip_newlines(s, i + 1)
    } else {
        i
    }
}

/// The end of an export variable name starting at `i`: the first space, `=`
/// or newline at or after `i`, or the end of the text.
pub open spec fn name_end(s: Seq<char>, i: int) -> int
    decreases s.len() - i,
{
    if i < 0 || i >= s.len() {
        s.len() as int
    } else if s[i] == ' ' || s[i] == '=' || s[i] == '\n' {
        i
    } else {
        name_end(s, i + 1)
    }
}

pub proof fn lemma_line_end_bounds(s: Seq<char>, i: int)
    requires
        0 <= i <= s.len(),
    ensures
        i <= line_end(s, i) <= s.len(),
    decreases s.len() - i,
{
    if i < s.len() && s[i] != '\n' {
        lemma_line_end_bounds(s, i + 1);
    }
}

pub proof fn lemma_skip_tabs_bounds(s: Seq<char>, i: int)
    requires
        0 <= i <= s.len(),
    ensures
        i <= skip_tabs(s, i) <= s.len(),
    decreases s.len() - i,
{
    if i < s.len() && s[i] == '\t' {
        lemma_skip_tabs_bounds(s, i + 1);
    }
}

fn find_line_end(src: &Vec<char>, start: usize) -> (r: usize)
    requires
        start <= src@.len(),
    ensures
        r == line_end(src@, start as int),
        start <= r <= src@.len(),
{
    let mut i = start;
    while i < src.len()
        invariant
            start <= i <= src@.len(),
            line_end(src@, start as int) == line_end(src@, i as int),
        decreases src@.len() - i,
    {
        if src[i] == '\n' {
            return i;
        }
        i = i + 1;
    }
    i
}

fn find_skip_tabs(src: &Vec<char>, start: usize) -> (r: usize)
    requires
        start <= src@.len(),
    ensures
        r == skip_tabs(src@, start as int),
        start <= r <= src@.len(),
{
    let mut i = start;
    while i < src.len()
        invariant
            start <= i <= src@.len(),
            skip_tabs(src@, start as int) == skip_tabs(src@, i as int),
        decreases src@.len() - i,
    {
        if src[i] != '\t' {
            return i;
        }
        i = i + 1;
    }
    i
}

fn find_skip_spaces(src: &Vec<char>, start: usize) -> (r: usize)
    requires
        start <= src@.len(),
    ensures
        r == skip_spaces(src@, start as int),
        start <= r <= src@.len(),
{
    let mut i = start;
    while i < src.len()
        invariant
            start <= i <= src@.len(),
            skip_spaces(src@, start as int) == skip_spaces(src@, i as int),
        decreases src@.len() - i,
    {
        if src[i] != ' ' {
            return i;
        }
        i = i + 1;
    }
    i
}

fn find_skip_newlines(src: &Vec<char>, start: usize) -> (r: usize)
    requires
        start <= src@.len(),
    ensures
        r == skip_newlines(src@, start as int),
        start <= r <= src@.len(),
{
    let mut i = start;
    while i < src.len()
        invariant
            start <= i <= src@.len(),
            skip_newlines(src@, start as int) == skip_newlines(src@, i as int),
        decreases src@.len() - i,
    {
        if src[i] != '\n' {
            return i;
        }
        i = i + 1;
    }
    i
}

fn find_name_end(src: &Vec<char>, start: usize) -> (r: usize)
    requires
        start <= src@.len(),
    ensures
        r == name_end(src@, start as int),
        start <= r <= src@.len(),
{
    let mut i = start;
    while i < src.len()
        invariant
            start <= i <= src@.len(),
            name_end(src@, start as int) == name_end(src@, i as int),
        decreases src@.len() - i,
    {
        let c = src[i];
        if c == ' ' || c == '=' || c == '\n' {
            return i;
        }
        i = i + 1;
    }
    i
}

/// The header-name scan from position `i`: leading whitespace is skipped, the
/// name runs to its terminating `:`. `ts` is where the current token began and
/// `inside` whether one is open. `Ok(Some)` carries the name and the position
/// just past the `:`; `Ok(None)` means no further target (only separators up
/// to the end of input).
pub open spec fn scan_name(s: Seq<char>, i: int, ts: int, inside: bool) -> Result<
    Option<(Seq<char>, int)>,
    ParseError,
>
    decreases s.len() - i,
{
    if i < 0 || i >= s.len() {
        if inside {
            Err(ParseError::UnterminatedName)
        } else {
            Ok(None)
        }
    } else {
        let c = s[i];
        if c == ':' {
            if !inside {
                Err(ParseError::MissingTargetName)
            } else {
                Ok(Some((s.subrange(ts, i), i + 1)))
            }
        } else if c == ' ' || c == '\n' || c == '\t' {
            if inside {
                Err(ParseError::NameSeparator)
            } else {
                scan_name(s, i + 1, i + 1, false)
            }
        } else {
            scan_name(s, i + 1, ts, true)
        }
    }
}

/// The dependency-list scan from position `i`: whitespace separated names up
/// to the header's newline. Reaching the end of input before the newline is a
/// hard error. Returns the names and the position just past the newline.
pub open spec fn scan_deps(s: Seq<char>, i: int, ts: int, inside: bool) -> Result<
    (Seq<Seq<char>>, int),
    ParseError,
>
    decreases s.len() - i,
{
    if i < 0 || i >= s.len() {
        Err(ParseError::UnexpectedEnd)
    } else {
        let c = s[i];
        if c == ' ' || c == '\t' {
            if inside {
                match scan_deps(s, i + 1, i + 1, false) {
                    Ok((deps, p)) => Ok((seq![s.subrange(ts, i)] + deps, p)),
                    Err(e) => Err(e),
                }
            } else {
                scan_deps(s, i + 1, i + 1, false)
            }
        } else if c == '\n' {
            if inside {
                Ok((seq![s.subrange(ts, i)], i + 1))
            } else {
                Ok((Seq::empty(), i + 1))
            }
        } else {
            scan_deps(s, i + 1, ts, true)
        }
    }
}

/// The instruction-block scan from position `i`: every line that begins with a
/// tab is one instruction — leading tabs stripped, the rest expanded against
/// the table `g` — and the first line that does not (or the end of input) ends
/// the block. Returns the expanded commands and the position of that line.
pub open spec fn scan_instrs(s: Seq<char>, i: int, g: Map<Seq<char>, Seq<char>>) -> (Seq<
    Seq<char>,
>, int)
    decreases s.len() - i,
    when 0 <= i <= s.len()
    via scan_instrs_dec
{
    if i >= s.len() || s[i] != '\t' {
        (Seq::empty(), i)
    } else {
        let t = skip_tabs(s, i);
        let e = line_end(s, t);
        let cmd = subst(s.subrange(t, e), g);
        if e >= s.len() {
            (seq![cmd], e)
        } else {
            let r = scan_instrs(s, e + 1, g);
            (seq![cmd] + r.0, r.1)
        }
    }
}

#[via_fn]
proof fn scan_instrs_dec(s: Seq<char>, i: int, g: Map<Seq<char>, Seq<char>>) {
    if 0 <= i <= s.len() && i < s.len() && s[i] == '\t' {
        lemma_skip_tabs_bounds(s, i + 1);
        lemma_line_end_bounds(s, skip_tabs(s, i));
    }
}

/// The `export` statement scan, from just past the `export ` keyword: spaces,
/// then the variable name up to its space, `=` or newline delimiter, then the
/// rest of the line as the value. A name delimited by the newline itself is
/// its own value. `Ok(None)` means the end of input came before the
/// statement's newline: the statement is dropped without effect.
pub open spec fn scan_export(s: Seq<char>, start: int) -> Result<
    Option<(Seq<char>, Seq<char>, int)>,
    ParseError,
> {
    let ns = skip_spaces(s, start);
    let ne = name_end(s, ns);
    if ne >= s.len() {
        Ok(None)
    } else if ne == ns {
        Err(ParseError::ExportMissingName)
    } else {
        let name = s.subrange(ns, ne);
        if s[ne] == '\n' {
            Ok(Some((name, name, ne + 1)))
        } else {
            let ve = line_end(s, ne + 1);
            if ve >= s.len() {
                Ok(None)
            } else {
                Ok(Some((name, s.subrange(ne + 1, ve), ve + 1)))
            }
        }
    }
}

/// Scans a target name from `start`, skipping leading whitespace; the name
/// ends at its `:`. Returns the name and the position just past the `:`.
pub fn parse_target_name(src: &Vec<char>, start: usize) -> (r: Result<
    Option<(Vec<char>, usize)>,
    ParseError,
>)
    requires
        start <= src@.len(),
    ensures
        match r {
            Ok(Some((name, next))) => scan_name(src@, start as int, start as int, false)
                == Ok::<_, ParseError>(Some((name@, next as int))) && next <= src@.len(),
            Ok(None) => scan_name(src@, start as int, start as int, false) == Ok::<
                Option<(Seq<char>, int)>,
                ParseError,
            >(None),
            Err(e) => scan_name(src@, start as int, start as int, false) == Err::<
                Option<(Seq<char>, int)>,
                ParseError,
            >(e),
        },
{
    let mut i = start;
    let mut ts = start;
    let mut inside = false;
    loop
        invariant
            start <= src@.len(),
            ts <= i <= src@.len(),
            scan_name(src@, start as int, start as int, false) == scan_name(
                src@,
                i as int,
                ts as int,
                inside,
            ),
        decreases src@.len() - i,
    {
        if i == src.len() {
            if inside {
                return Err(ParseError::UnterminatedName);
            } else {
                return Ok(None);
            }
        }
        let c = src[i];
        if c == ':' {
            if !inside {
                return Err(ParseError::MissingTargetName);
            }
            let name = slice_chars(src, ts, i);
            return Ok(Some((name, i + 1)));
        } else if c == ' ' || c == '\n' || c == '\t' {
            if inside {
                return Err(ParseError::NameSeparator);
            }
            ts = i + 1;
        } else {
            inside = true;
        }
        i = i + 1;
    }
}

/// The images of a list of dependency names.
pub open spec fn deps_view(v: Seq<Vec<char>>) -> Seq<Seq<char>> {
    Seq::new(v.len(), |k: int| v[k]@)
}

/// Scans the whitespace separated dependency names that end the header line.
/// Returns the names and the position just past the header's newline.
pub fn parse_target_dependents(src: &Vec<char>, start: usize) -> (r: Result<
    (Vec<Vec<char>>, usize),
    ParseError,
>)
    requires
        start <= src@.len(),
    ensures
        match r {
            Ok((deps, next)) => scan_deps(src@, start as int, start as int, false) == Ok::<
                _,
                ParseError,
            >((deps_view(deps@), next as int)) && next <= src@.len(),
            Err(e) => scan_deps(src@, start as int, start as int, false) == Err::<
                (Seq<Seq<char>>, int),
                ParseError,
            >(e),
        },
{
    let mut acc: Vec<Vec<char>> = Vec::new();
    let mut i = start;
    let mut ts = start;
    let mut inside = false;
    proof {
        assert(deps_view(acc@) =~= Seq::<Seq<char>>::empty());
    }
    loop
        invariant
            start <= src@.len(),
            ts <= i <= src@.len(),
            match scan_deps(src@, i as int, ts as int, inside) {
                Ok((deps, p)) => scan_deps(src@, start as int, start as int, false) == Ok::<
                    _,
                    ParseError,
                >((deps_view(acc@) + deps, p)),
                Err(e) => scan_deps(src@, start as int, start as int, false) == Err::<
                    (Seq<Seq<char>>, int),
                    ParseError,
                >(e),
            },
        decreases src@.len() - i,
    {
        if i == src.len() {
            return Err(ParseError::UnexpectedEnd);
        }
        let c = src[i];
        if c == ' ' || c == '\t' {
            if inside {
                let ghost pre = acc@;
                acc.push(slice_chars(src, ts, i));
                proof {
                    assert(deps_view(acc@) =~= deps_view(pre) + seq![src@.subrange(ts as int, i as int)]);
                    lemma_prepend_assoc(deps_view(pre), src@.subrange(ts as int, i as int));
                }
                inside = false;
            }
            ts = i + 1;
        } else if c == '\n' {
            if inside {
                let ghost pre = acc@;
                acc.push(slice_chars(src, ts, i));
                proof {
                    assert(deps_view(acc@) =~= deps_view(pre) + seq![src@.subrange(ts as int, i as int)]);
                }
                return Ok((acc, i + 1));
            } else {
                proof {
                    assert(deps_view(acc@) + Seq::<Seq<char>>::empty() =~= deps_view(acc@));
                }
                return Ok((acc, i + 1));
            }
        } else {
            inside = true;
        }
        i = i + 1;
    }
}

proof fn lemma_prepend_assoc(pre: Seq<Seq<char>>, head: Seq<char>)
    ensures
        forall|rest: Seq<Seq<char>>|
            (pre + seq![head]) + rest =~= pre + (seq![head] + rest),
{
}

/// The command strings of a list of instructions.
pub open spec fn cmds_view(v: Seq<BuildInstruction>) -> Seq<Seq<char>> {
    Seq::new(v.len(), |k: int| v[k].command_string@)
}

/// Scans the instruction lines that follow a header: each line beginning with
/// a tab becomes one instruction, expanded against `globals` as the table
/// stands now. Returns the instructions and the position of the first line
/// that is not an instruction (or the end of input).
pub fn parse_build_instructions(src: &Vec<char>, start: usize, globals: &GlobalTable) -> (r: (
    Vec<BuildInstruction>,
    usize,
))
    requires
        globals.wf(),
        start <= src@.len(),
    ensures
        ({
            let s = scan_instrs(src@, start as int, globals@);
            cmds_view(r.0@) == s.0 && r.1 as int == s.1 && r.1 <= src@.len()
        }),
{
    let mut acc: Vec<BuildInstruction> = Vec::new();
    let mut i = start;
    loop
        invariant
            globals.wf(),
            start <= i <= src@.len(),
            ({
                let whole = scan_instrs(src@, start as int, globals@);
                let rest = scan_instrs(src@, i as int, globals@);
                whole.0 == cmds_view(acc@) + rest.0 && whole.1 == rest.1
            }),
        decreases src@.len() - i,
    {
        if i == src.len() || src[i] != '\t' {
            proof {
                assert(cmds_view(acc@) + Seq::<Seq<char>>::empty() =~= cmds_view(acc@));
            }
            return (acc, i);
        }
        let t = find_skip_tabs(src, i);
        let e = find_line_end(src, t);
        let template = slice_chars(src, t, e);
        let instr = BuildInstruction::new(&template, globals);
        let ghost pre = acc@;
        acc.push(instr);
        proof {
            assert(cmds_view(acc@) =~= cmds_view(pre) + seq![
                subst(src@.subrange(t as int, e as int), globals@),
            ]);
        }
        if e == src.len() {
            proof {
                let whole = scan_instrs(src@, start as int, globals@);
                assert(whole.0 =~= cmds_view(acc@));
            }
            return (acc, e);
        }
        proof {
            let head = subst(src@.subrange(t as int, e as int), globals@);
            let rest = scan_instrs(src@, e + 1, globals@);
            assert((cmds_view(pre) + seq![head]) + rest.0 =~= cmds_view(pre) + (seq![head]
                + rest.0));
        }
        i = e + 1;
    }
}

/// Scans an `export` statement from just past the `export ` keyword. On
/// `Ok(Some)` the result is the variable's name, the literal value text whose
/// echo output will become the variable's value, and the position just past
/// the statement's newline; `Ok(None)` means the end of input cut the
/// statement short, which drops it without effect.
pub fn parse_global(src: &Vec<char>, start: usize) -> (r: Result<
    Option<(Vec<char>, Vec<char>, usize)>,
    ParseError,
>)
    requires
        start <= src@.len(),
    ensures
        match r {
            Ok(Some((name, value, next))) => scan_export(src@, start as int) == Ok::<
                _,
                ParseError,
            >(Some((name@, value@, next as int))) && next <= src@.len(),
            Ok(None) => scan_export(src@, start as int) == Ok::<
                Option<(Seq<char>, Seq<char>, int)>,
                ParseError,
            >(None),
            Err(e) => scan_export(src@, start as int) == Err::<
                Option<(Seq<char>, Seq<char>, int)>,
                ParseError,
            >(e),
        },
{
    let ns = find_skip_spaces(src, start);
    let ne = find_name_end(src, ns);
    if ne == src.len() {
        return Ok(None);
    }
    if ne == ns {
        return Err(ParseError::ExportMissingName);
    }
    let name = slice_chars(src, ns, ne);
    if src[ne] == '\n' {
        let value = slice_chars(src, ns, ne);
        return Ok(Some((name, value, ne + 1)));
    }
    let ve = find_line_end(src, ne + 1);
    if ve == src.len() {
        return Ok(None);
    }
    let value = slice_chars(src, ne + 1, ve);
    Ok(Some((name, value, ve + 1)))
}

/// The seven characters that open an `export` statement.
pub open spec fn export_keyword() -> Seq<char> {
    seq!['e', 'x', 'p', 'o', 'r', 't', ' ']
}

/// The prefix put before an export's value to form the shell command whose
/// captured output becomes the variable's value.
pub open spec fn echo_keyword() -> Seq<char> {
    seq!['e', 'c', 'h', 'o', ' ']
}

/// A captured command output with a single trailing newline replaced by a
/// space; anything else is kept as it is.
pub open spec fn normalized_output(s: Seq<char>) -> Seq<char> {
    if s.len() > 0 && s[s.len() - 1] == '\n' {
        s.update(s.len() - 1, ' ')
    } else {
        s
    }
}

/// Replaces a single trailing newline of a captured command output by a space.
pub fn normalize_command_output(raw: Vec<char>) -> (r: Vec<char>)
    ensures
        r@ == normalized_output(raw@),
{
    let mut v = raw;
    let n = v.len();
    if n > 0 && v[n - 1] == '\n' {
        v.set(n - 1, ' ');
    }
    v
}

/// What one parsing step does, as a function of the text, the position, and
/// the variable table: it finishes, runs an export's command, drops an export
/// cut short by the end of input, yields one target, or fails.
pub enum SpecStep {
    Finished { pos: int },
    Export { name: Seq<char>, command: Seq<char>, pos: int },
    Skipped { pos: int },
    Target { t: SpecTarget, pos: int },
    Error { err: ParseError },
}

/// Classifies and carries out the next parsing step at `pos`: skip blank
/// lines, then an `export` statement, a target block, or the end of input.
pub open spec fn parse_step(s: Seq<char>, pos: int, g: Map<Seq<char>, Seq<char>>) -> SpecStep {
    let p = skip_newlines(s, pos);
    if p >= s.len() {
        SpecStep::Finished { pos: p }
    } else if p + 7 <= s.len() && s.subrange(p, p + 7) == export_keyword() {
        match scan_export(s, p + 7) {
            Err(e) => SpecStep::Error { err: e },
            Ok(None) => SpecStep::Skipped { pos: s.len() as int },
            Ok(Some((name, value, next))) => SpecStep::Export {
                name,
                command: echo_keyword() + value,
                pos: next,
            },
        }
    } else {
        match scan_name(s, p, p, false) {
            Err(e) => SpecStep::Error { err: e },
            Ok(None) => SpecStep::Finished { pos: s.len() as int },
            Ok(Some((name, p1))) => match scan_deps(s, p1, p1, false) {
                Err(e) => SpecStep::Error { err: e },
                Ok((deps, p2)) => {
                    let r = scan_instrs(s, p2, g);
                    SpecStep::Target {
                        t: SpecTarget {
                            name: name,
                            dependencies: deps,
                            build_commands: r.0,
                        },
                        pos: r.1,
                    }
                },
            },
        }
    }
}

/// Parsing is deterministic: the same text, position and variable table always
/// classify and advance the same way, so re-parsing the same file with the
/// same captured command outputs yields the identical target list, global
/// table and instruction strings.
pub proof fn lemma_parse_deterministic(
    s1: Seq<char>,
    pos1: int,
    g1: Map<Seq<char>, Seq<char>>,
    s2: Seq<char>,
    pos2: int,
    g2: Map<Seq<char>, Seq<char>>,
)
    requires
        s1 == s2,
        pos1 == pos2,
        g1 == g2,
    ensures
        parse_step(s1, pos1, g1) == parse_step(s2, pos2, g2),
{
}

/// What [`ParseSession::advance`] asks of its caller next.
pub enum Advance {
    /// Run this shell command and hand its captured output to
    /// [`ParseSession::supply_output`], then advance again.
    RunCommand(Vec<char>),
    /// A step was carried out; advance again.
    Progress,
    /// The whole file is parsed.
    Finished,
    /// A hard parse error; the parse is over and no targets are usable.
    Failed(ParseError),
}

/// An in-progress parse of one build file. The caller alternates
/// [`ParseSession::advance`] with running the commands it hands out, and owns
/// the targets and the global table once `advance` says it finished.
pub struct ParseSession {
    pub source: Vec<char>,
    pub pos: usize,
    pub globals: GlobalTable,
    pub targets: Vec<BuildTarget>,
    pub pending: Option<Vec<char>>,
}

impl ParseSession {
    pub open spec fn wf(&self) -> bool {
        &&& self.globals.wf()
        &&& self.pos <= self.source@.len()
    }

    pub fn new(source: Vec<char>) -> (r: ParseSession)
        ensures
            r.wf(),
            r.source@ == source@,
            r.pos == 0,
            r.globals@ == Map::<Seq<char>, Seq<char>>::empty(),
            r.targets@.len() == 0,
            r.pending is None,
    {
        ParseSession {
            source,
            pos: 0,
            globals: GlobalTable::new(),
            targets: Vec::new(),
            pending: None,
        }
    }

    /// Carries out the next parsing step, exactly as [`parse_step`] classifies
    /// it at the current position against the current table.
    pub fn advance(&mut self) -> (r: Advance)
        requires
            old(self).wf(),
            old(self).pending is None,
        ensures
            final(self).wf(),
            final(self).source@ == old(self).source@,
            match parse_step(old(self).source@, old(self).pos as int, old(self).globals@) {
                SpecStep::Finished { pos } => {
                    &&& r is Finished
                    &&& final(self).pos as int == pos
                    &&& final(self).globals@ == old(self).globals@
                    &&& final(self).targets@ == old(self).targets@
                    &&& final(self).pending is None
                },
                SpecStep::Skipped { pos } => {
                    &&& r is Progress
                    &&& final(self).pos as int == pos
                    &&& final(self).globals@ == old(self).globals@
                    &&& final(self).targets@ == old(self).targets@
                    &&& final(self).pending is None
                },
                SpecStep::Export { name, command, pos } => {
                    &&& r matches Advance::RunCommand(c) && c@ == command
                    &&& final(self).pos as int == pos
                    &&& final(self).globals@ == old(self).globals@
                    &&& final(self).targets@ == old(self).targets@
                    &&& final(self).pending matches Some(n) && n@ == name
                },
                SpecStep::Target { t, pos } => {
                    &&& r is Progress
                    &&& final(self).pos as int == pos
                    &&& final(self).globals@ == old(self).globals@
                    &&& crate::targets_view(final(self).targets@) == crate::targets_view(
                        old(self).targets@,
                    ).push(t)
                    &&& final(self).pending is None
                },
                SpecStep::Error { err } => {
                    &&& r matches Advance::Failed(e) && e == err
                    &&& final(self).pos == old(self).pos
                    &&& final(self).globals@ == old(self).globals@
                    &&& final(self).targets@ == old(self).targets@
                    &&& final(self).pending is None
                },
            },
    {
        let p = find_skip_newlines(&self.source, self.pos);
        if p == self.source.len() {
            self.pos = p;
            return Advance::Finished;
        }
        if has_export_keyword(&self.source, p) {
            match parse_global(&self.source, p + 7) {
                Err(e) => {
                    return Advance::Failed(e);
                },
                Ok(None) => {
                    self.pos = self.source.len();
                    return Advance::Progress;
                },
                Ok(Some((name, value, next))) => {
                    self.pos = next;
                    self.pending = Some(name);
                    let mut command: Vec<char> = Vec::new();
                    command.push('e');
                    command.push('c');
                    command.push('h');
                    command.push('o');
                    command.push(' ');
                    proof {
                        assert(command@ =~= echo_keyword());
                    }
                    crate::subst::append_chars(&mut command, &value);
                    return Advance::RunCommand(command);
                },
            }
        }
        match parse_target_name(&self.source, p) {
            Err(e) => {
                return Advance::Failed(e);
            },
            Ok(None) => {
                self.pos = self.source.len();
                return Advance::Finished;
            },
            Ok(Some((name, p1))) => {
                match parse_target_dependents(&self.source, p1) {
                    Err(e) => {
                        return Advance::Failed(e);
                    },
                    Ok((deps, p2)) => {
                        let (cmds, p3) = parse_build_instructions(&self.source, p2, &self.globals);
                        let ghost pre = crate::targets_view(self.targets@);
                        let target = crate::BuildTarget {
                            name,
                            dependencies: deps,
                            build_commands: cmds,
                        };
                        let ghost tv = target@;
                        self.targets.push(target);
                        self.pos = p3;
                        proof {
                            assert(tv.dependencies =~= deps_view(deps@));
                            assert(tv.build_commands =~= cmds_view(cmds@));
                            assert(crate::targets_view(self.targets@) =~= pre.push(tv));
                        }
                        return Advance::Progress;
                    },
                }
            },
        }
    }

    /// Takes the captured output of the command the last [`Self::advance`]
    /// handed out, and defines the pending variable as that output with a
    /// single trailing newline replaced by a space.
    pub fn supply_output(&mut self, raw: Vec<char>)
        requires
            old(self).wf(),
            old(self).pending is Some,
        ensures
            final(self).wf(),
            final(self).source@ == old(self).source@,
            final(self).pos == old(self).pos,
            final(self).targets@ == old(self).targets@,
            final(self).pending is None,
            old(self).pending matches Some(n) && final(self).globals@ == old(self).globals@.insert(
                n@,
                normalized_output(raw@),
            ),
    {
        let value = normalize_command_output(raw);
        let mut pending: Option<Vec<char>> = None;
        core::mem::swap(&mut pending, &mut self.pending);
        match pending {
            Some(name) => {
                self.globals.insert(name, value);
            },
            None => {
                proof {
                    assert(false);
                }
            },
        }
    }
}

/// Whether the seven characters at `p` read `export `.
fn has_export_keyword(src: &Vec<char>, p: usize) -> (r: bool)
    requires
        p <= src@.len(),
    ensures
        r <==> (p + 7 <= src@.len() && src@.subrange(p as int, p as int + 7) == export_keyword()),
{
    if src.len() - p < 7 {
        return false;
    }
    let r = src[p] == 'e' && src[p + 1] == 'x' && src[p + 2] == 'p' && src[p + 3] == 'o' && src[p
        + 4] == 'r' && src[p + 5] == 't' && src[p + 6] == ' ';
    proof {
        let sub = src@.subrange(p as int, p as int + 7);
        if r {
            assert(sub =~= export_keyword());
        } else {
            if sub == export_keyword() {
                assert(sub[0] == 'e' && sub[1] == 'x' && sub[2] == 'p' && sub[3] == 'o' && sub[4]
                    == 'r' && sub[5] == 't' && sub[6] == ' ');
            }
        }
    }
    r
}

} // verus!
