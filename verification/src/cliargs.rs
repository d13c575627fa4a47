//! Creation-time argument handling: the exit-kill request as it
//! arrives on the command line, the arguments of the creation command,
//! and the checks run before an entry is built.

use vstd::prelude::*;
use vstd::string::StrSliceExecFns;
use crate::entity::{Command, CommandV, ExitKill, ExitKillV};
use crate::error::Error;

verus! {

/// The exit-kill request as given on the command line: the bare flag
/// (`Default`, shorthand for killing on exit code 0 alone), the word
/// `any`, or a comma-separated code list.
#[derive(Debug, PartialEq)]
pub enum ExitKillArg {
    Default,
    Any,
    Codes(Vec<i32>),
}

/// Mathematical view of an `ExitKillArg`.
#[verifier::ext_equal]
pub ghost enum ExitKillArgV {
    Default,
    Any,
    Codes(Seq<i32>),
}

impl View for ExitKillArg {
    type V = ExitKillArgV;

    open spec fn view(&self) -> ExitKillArgV {
        match self {
            ExitKillArg::Default => ExitKillArgV::Default,
            ExitKillArg::Any => ExitKillArgV::Any,
            ExitKillArg::Codes(codes) => ExitKillArgV::Codes(codes@),
        }
    }
}

impl DeepView for ExitKillArg {
    type V = ExitKillArgV;

    open spec fn deep_view(&self) -> ExitKillArgV {
        self.view()
    }
}

/// The whitespace characters stripped from a code token.
pub open spec fn is_ws(c: char) -> bool {
    c == ' ' || c == '\t' || c == '\n' || c == '\r'
}

/// A decimal digit.
pub open spec fn is_digit(c: char) -> bool {
    48 <= (c as u32) && (c as u32) <= 57
}

/// The token without its leading whitespace.
pub open spec fn trim_start(t: Seq<char>) -> Seq<char>
    decreases t.len(),
{
    if t.len() > 0 && is_ws(t[0]) {
        trim_start(t.drop_first())
    } else {
        t
    }
}

/// The token without its trailing whitespace.
pub open spec fn trim_end(t: Seq<char>) -> Seq<char>
    decreases t.len(),
{
    if t.len() > 0 && is_ws(t.last()) {
        trim_end(t.drop_last())
    } else {
        t
    }
}

/// The token without leading and trailing whitespace.
pub open spec fn spec_trim(t: Seq<char>) -> Seq<char> {
    trim_end(trim_start(t))
}

/// The numeric value of a digit string, most significant first.
pub open spec fn digits_val(t: Seq<char>) -> int
    decreases t.len(),
{
    if t.len() == 0 {
        0
    } else {
        digits_val(t.drop_last()) * 10 + ((t.last() as u32) - 48)
    }
}

/// A nonempty, all-digit string.
pub open spec fn all_digits(t: Seq<char>) -> bool {
    t.len() > 0 && forall|i: int| 0 <= i < t.len() ==> is_digit(#[trigger] t[i])
}

/// What parsing a token as a 32-bit signed decimal integer yields: an
/// optional single sign, then digits only, and the value must fit.
pub open spec fn spec_parse_i32(t: Seq<char>) -> Option<i32> {
    let neg = t.len() > 0 && t[0] == '-';
    let signed = t.len() > 0 && (t[0] == '-' || t[0] == '+');
    let mag = if signed {
        t.drop_first()
    } else {
        t
    };
    if all_digits(mag) {
        let v = if neg {
            -digits_val(mag)
        } else {
            digits_val(mag)
        };
        if i32::MIN <= v <= i32::MAX {
            Some(v as i32)
        } else {
            None
        }
    } else {
        None
    }
}

/// Appends the value if one parsed.
pub open spec fn opt_push(s: Seq<i32>, o: Option<i32>) -> Seq<i32> {
    match o {
        Some(v) => s.push(v),
        None => s,
    }
}

/// The codes collected from position `i` on, the current token having
/// started at `start`: tokens are separated by commas, each is
/// trimmed, and tokens that do not parse are skipped.
pub open spec fn parse_codes_rec(s: Seq<char>, i: int, start: int) -> Seq<i32>
    decreases s.len() - i,
{
    if i >= s.len() {
        opt_push(Seq::empty(), spec_parse_i32(spec_trim(s.subrange(start, s.len() as int))))
    } else if s[i] == ',' {
        opt_push(Seq::empty(), spec_parse_i32(spec_trim(s.subrange(start, i)))) + parse_codes_rec(
            s,
            i + 1,
            i + 1,
        )
    } else {
        parse_codes_rec(s, i + 1, start)
    }
}

/// The exit codes read from a comma-separated list.
pub open spec fn spec_parse_codes(s: Seq<char>) -> Seq<i32> {
    parse_codes_rec(s, 0, 0)
}

/// The word `any`, compared without regard to letter case.
pub open spec fn is_any_keyword(s: Seq<char>) -> bool {
    s.len() == 3 && (s[0] == 'a' || s[0] == 'A') && (s[1] == 'n' || s[1] == 'N') && (s[2] == 'y'
        || s[2] == 'Y')
}

/// What `ExitKillArg::parse` yields for each shape of the flag.
pub open spec fn spec_parse_arg(v: Option<Option<Seq<char>>>) -> Option<ExitKillArgV> {
    match v {
        None => None,
        Some(None) => Some(ExitKillArgV::Default),
        Some(Some(s)) => if is_any_keyword(s) {
            Some(ExitKillArgV::Any)
        } else if spec_parse_codes(s).len() == 0 {
            Some(ExitKillArgV::Default)
        } else {
            Some(ExitKillArgV::Codes(spec_parse_codes(s)))
        },
    }
}

fn is_ws_char(c: char) -> (r: bool)
    ensures
        r == is_ws(c),
{
    c == ' ' || c == '\t' || c == '\n' || c == '\r'
}

/// `trim_start` removes exactly the leading-whitespace prefix.
proof fn lemma_trim_start_at(s: Seq<char>, a: int)
    requires
        0 <= a <= s.len(),
        forall|k: int| 0 <= k < a ==> is_ws(#[trigger] s[k]),
        a == s.len() || !is_ws(s[a]),
    ensures
        trim_start(s) == s.skip(a),
    decreases a,
{
    if a == 0 {
        assert(s.skip(0) =~= s);
    } else {
        assert(is_ws(s[0]));
        let t = s.drop_first();
        assert forall|k: int| 0 <= k < a - 1 implies is_ws(#[trigger] t[k]) by {
            assert(t[k] == s[k + 1]);
        }
        if a - 1 < t.len() {
            assert(t[a - 1] == s[a]);
        }
        lemma_trim_start_at(t, a - 1);
        assert(t.skip(a - 1) =~= s.skip(a));
    }
}

/// `trim_end` removes exactly the trailing-whitespace suffix.
proof fn lemma_trim_end_at(s: Seq<char>, b: int)
    requires
        0 <= b <= s.len(),
        forall|k: int| b <= k < s.len() ==> is_ws(#[trigger] s[k]),
        b == 0 || !is_ws(s[b - 1]),
    ensures
        trim_end(s) == s.take(b),
    decreases s.len(),
{
    if b == s.len() {
        if s.len() > 0 {
            assert(!is_ws(s.last()));
        }
        assert(s.take(b) =~= s);
    } else {
        assert(is_ws(s.last()));
        let t = s.drop_last();
        assert forall|k: int| b <= k < t.len() implies is_ws(#[trigger] t[k]) by {
            assert(t[k] == s[k]);
        }
        if b > 0 {
            assert(t[b - 1] == s[b - 1]);
        }
        lemma_trim_end_at(t, b);
        assert(t.take(b) =~= s.take(b));
    }
}

/// Strips leading and trailing whitespace from a token.
fn trim_token<'a>(t: &'a str) -> (r: &'a str)
    ensures
        r@ == spec_trim(t@),
{
    let n = t.unicode_len();
    let mut a: usize = 0;
    while a < n && is_ws_char(t.get_char(a))
        invariant
            a <= n,
            n == t@.len(),
            forall|k: int| 0 <= k < a ==> is_ws(#[trigger] t@[k]),
        decreases n - a,
    {
        a = a + 1;
    }
    let mut b: usize = n;
    while b > a && is_ws_char(t.get_char(b - 1))
        invariant
            a <= b <= n,
            n == t@.len(),
            forall|k: int| b <= k < n ==> is_ws(#[trigger] t@[k]),
        decreases b,
    {
        b = b - 1;
    }
    let r = t.substring_char(a, b);
    proof {
        lemma_trim_start_at(t@, a as int);
        let m = t@.skip(a as int);
        assert forall|k: int| b - a <= k < m.len() implies is_ws(#[trigger] m[k]) by {
            assert(m[k] == t@[k + a]);
        }
        if b > a {
            assert(m[b - a - 1] == t@[b - 1]);
        }
        lemma_trim_end_at(m, b - a);
        assert(m.take(b - a) =~= t@.subrange(a as int, b as int));
    }
    r
}

/// The value of a digit prefix never shrinks as digits are appended.
proof fn lemma_digits_val_nonneg(t: Seq<char>)
    requires
        forall|i: int| 0 <= i < t.len() ==> is_digit(#[trigger] t[i]),
    ensures
        digits_val(t) >= 0,
    decreases t.len(),
{
    if t.len() == 0 {
    } else {
        let u = t.drop_last();
        assert forall|i: int| 0 <= i < u.len() implies is_digit(#[trigger] u[i]) by {
            assert(u[i] == t[i]);
        }
        lemma_digits_val_nonneg(u);
    }
}

/// Parses a token as a 32-bit signed decimal integer; tokens that are
/// empty, hold a stray character, or overflow yield nothing.
fn parse_i32_token(t: &str) -> (r: Option<i32>)
    ensures
        r == spec_parse_i32(t@),
{
    let n = t.unicode_len();
    let mut start: usize = 0;
    let mut neg = false;
    if n > 0 {
        let c0 = t.get_char(0);
        if c0 == '-' {
            neg = true;
            start = 1;
        } else if c0 == '+' {
            start = 1;
        }
    }
    let ghost mag = if start == 1 {
        t@.drop_first()
    } else {
        t@
    };
    proof {
        assert(mag =~= t@.skip(start as int));
    }
    if start == n {
        return None;
    }
    let mut acc: i64 = 0;
    let mut over = false;
    let mut i: usize = start;
    while i < n
        invariant
            start <= i <= n,
            n == t@.len(),
            mag == t@.skip(start as int),
            mag == (if t@.len() > 0 && (t@[0] == '-' || t@[0] == '+') {
                t@.drop_first()
            } else {
                t@
            }),
            mag.len() == n - start,
            forall|k: int| 0 <= k < i - start ==> is_digit(#[trigger] mag[k]),
            !over ==> acc == digits_val(mag.take(i - start)) && 0 <= acc <= 2147483648,
            over ==> digits_val(mag.take(i - start)) > 2147483648,
        decreases n - i,
    {
        let c = t.get_char(i);
        proof {
            assert(mag[i - start] == t@[i as int]);
        }
        let code = c as u32;
        if code < 48 || code > 57 {
            proof {
                assert(!is_digit(mag[i - start]));
            }
            return None;
        }
        let d = (code - 48) as i64;
        proof {
            assert(mag.take(i - start + 1).drop_last() =~= mag.take(i - start));
            assert(mag.take(i - start + 1).last() == mag[i - start]);
        }
        if !over {
            acc = acc * 10 + d;
            if acc > 2147483648 {
                over = true;
            }
        } else {
            proof {
                let prev = digits_val(mag.take(i - start));
                assert(digits_val(mag.take(i - start + 1)) == prev * 10 + d);
                assert(prev * 10 >= prev) by {
                    assert(prev > 0);
                }
            }
        }
        i = i + 1;
    }
    proof {
        assert(mag.take(n - start) =~= mag);
        assert(all_digits(mag));
    }
    if over {
        return None;
    }
    if neg {
        proof {
            assert(spec_parse_i32(t@) == Some((-acc) as i32));
        }
        Some((-acc) as i32)
    } else {
        if acc > 2147483647 {
            return None;
        }
        Some(acc as i32)
    }
}

/// Reads a comma-separated code list: each token is trimmed, tokens
/// that do not parse as 32-bit integers are skipped.
pub fn parse_code_list(s: &str) -> (r: Vec<i32>)
    ensures
        r@ == spec_parse_codes(s@),
{
    let n = s.unicode_len();
    let mut codes: Vec<i32> = Vec::new();
    let mut start: usize = 0;
    let mut i: usize = 0;
    while i < n
        invariant
            start <= i <= n,
            n == s@.len(),
            spec_parse_codes(s@) == codes@ + parse_codes_rec(s@, i as int, start as int),
        decreases n - i,
    {
        if s.get_char(i) == ',' {
            let token = s.substring_char(start, i);
            let trimmed = trim_token(token);
            let ghost before = codes@;
            match parse_i32_token(trimmed) {
                Some(v) => codes.push(v),
                None => (),
            }
            proof {
                let tok = s@.subrange(start as int, i as int);
                assert(codes@ =~= before + opt_push(Seq::empty(), spec_parse_i32(spec_trim(tok))));
                assert(codes@ + parse_codes_rec(s@, i + 1, i + 1) =~= before + (opt_push(
                    Seq::empty(),
                    spec_parse_i32(spec_trim(tok)),
                ) + parse_codes_rec(s@, i + 1, i + 1)));
            }
            i = i + 1;
            start = i;
        } else {
            i = i + 1;
        }
    }
    let token = s.substring_char(start, n);
    let trimmed = trim_token(token);
    let ghost before = codes@;
    match parse_i32_token(trimmed) {
        Some(v) => codes.push(v),
        None => (),
    }
    proof {
        let tok = s@.subrange(start as int, n as int);
        assert(codes@ =~= before + opt_push(Seq::empty(), spec_parse_i32(spec_trim(tok))));
    }
    codes
}

fn is_any_word(s: &str) -> (r: bool)
    ensures
        r == is_any_keyword(s@),
{
    let n = s.unicode_len();
    if n != 3 {
        return false;
    }
    let c0 = s.get_char(0);
    let c1 = s.get_char(1);
    let c2 = s.get_char(2);
    (c0 == 'a' || c0 == 'A') && (c1 == 'n' || c1 == 'N') && (c2 == 'y' || c2 == 'Y')
}

impl ExitKillArg {
    /// Reads the exit-kill flag: absent means no policy; the bare flag
    /// means the default (exit code 0); the word `any` in any letter
    /// case means every code; otherwise a comma-separated code list,
    /// falling back to the default when no token parses.
    pub fn parse(value: Option<Option<String>>) -> (r: Option<ExitKillArg>)
        ensures
            r.deep_view() == spec_parse_arg(value.deep_view()),
    {
        match value {
            None => None,
            Some(None) => Some(ExitKillArg::Default),
            Some(Some(s)) => {
                if is_any_word(s.as_str()) {
                    Some(ExitKillArg::Any)
                } else {
                    let codes = parse_code_list(s.as_str());
                    if codes.len() == 0 {
                        Some(ExitKillArg::Default)
                    } else {
                        Some(ExitKillArg::Codes(codes))
                    }
                }
            },
        }
    }

    /// The stored policy this request stands for: the bare flag is
    /// shorthand for killing on exit code 0 alone.
    pub fn to_exit_kill(self) -> (r: ExitKill)
        ensures
            r@ == spec_exit_kill_of(self@),
    {
        match self {
            ExitKillArg::Default => {
                let r = ExitKill::Codes(vec![0]);
                proof {
                    assert(r@ =~= ExitKillV::Codes(seq![0i32]));
                }
                r
            },
            ExitKillArg::Any => ExitKill::Any,
            ExitKillArg::Codes(codes) => ExitKill::Codes(codes),
        }
    }
}

/// The stored policy each request stands for.
pub open spec fn spec_exit_kill_of(a: ExitKillArgV) -> ExitKillV {
    match a {
        ExitKillArgV::Default => ExitKillV::Codes(seq![0i32]),
        ExitKillArgV::Any => ExitKillV::Any,
        ExitKillArgV::Codes(codes) => ExitKillV::Codes(codes),
    }
}

/// Arguments of the creation command.
#[derive(Debug)]
pub struct NewArgs {
    pub branch: String,
    pub prompt: Option<String>,
    pub cmd: Option<String>,
    pub agent: Option<String>,
    pub exit_kill: Option<ExitKillArg>,
    pub remote: String,
    pub base: String,
}

/// Builds the command an entry will run from the creation arguments:
/// exactly one of `prompt` and `cmd` must be given; a prompt makes the
/// assisted command (with the agent passed along), a raw command line
/// the shell command.
pub fn command_of_args(prompt: Option<String>, cmd: Option<String>, agent: Option<String>) -> (r:
    Result<Command, Error>)
    ensures
        match r {
            Ok(c) => {
                &&& prompt is Some || cmd is Some
                &&& !(prompt is Some && cmd is Some)
                &&& c@ == (if prompt is Some {
                    CommandV::Claude {
                        prompt: prompt.deep_view()->Some_0,
                        agent: agent.deep_view(),
                    }
                } else {
                    CommandV::Raw { cmd: cmd.deep_view()->Some_0 }
                })
            },
            Err(e) => {
                &&& (e is NoCommand <==> (prompt is None && cmd is None))
                &&& (e is ConflictingCommands <==> (prompt is Some && cmd is Some))
                &&& (e is NoCommand || e is ConflictingCommands)
            },
        },
{
    match (prompt, cmd) {
        (None, None) => Err(Error::NoCommand),
        (Some(_), Some(_)) => Err(Error::ConflictingCommands),
        (Some(p), None) => Ok(Command::Claude { prompt: p, agent }),
        (None, Some(c)) => Ok(Command::Raw { cmd: c }),
    }
}

} // verus!
