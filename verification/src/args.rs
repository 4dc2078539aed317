//! Interpretation of the command-line arguments.
use vstd::prelude::*;
use vstd::string::StrSliceExecFns;
use crate::separator::{LineEnding, parse_separator};

verus! {

/// The settings that the command line asks for.
#[derive(Debug)]
pub struct Options {
    /// The input files, in order.
    pub files: Vec<String>,
    /// The bytes written between inputs.
    pub separator: Vec<u8>,
    /// `None`: standard output; an empty path: a file named after the time.
    pub output: Option<String>,
    /// The requested stdin positions, in the order given (`usize::MAX` for `last`).
    pub stdin_positions: Vec<usize>,
    pub stdin_ignored: bool,
    pub show_help: bool,
    pub clean: bool,
    pub trim: bool,
}

/// The settings as values.
pub struct OptionsView {
    pub files: Seq<Seq<char>>,
    pub separator: Seq<u8>,
    pub output: Option<Seq<char>>,
    pub stdin_positions: Seq<usize>,
    pub stdin_ignored: bool,
    pub show_help: bool,
    pub clean: bool,
    pub trim: bool,
}

impl View for Options {
    type V = OptionsView;

    open spec fn view(&self) -> OptionsView {
        OptionsView {
            files: self.files@.map_values(|f: String| f@),
            separator: self.separator@,
            output: match self.output {
                Some(p) => Some(p@),
                None => None,
            },
            stdin_positions: self.stdin_positions@,
            stdin_ignored: self.stdin_ignored,
            show_help: self.show_help,
            clean: self.clean,
            trim: self.trim,
        }
    }
}

/// A command line that cannot be used.
#[derive(Debug)]
pub enum ArgError {
    /// The value of `--push-stdin-at=` is no position.
    InvalidPosition(String),
    /// An argument starting with `--` that is no option.
    UnknownOption(String),
    /// `--sep` is the last argument, with no value after it.
    MissingSeparatorValue,
}

pub enum ArgErrorView {
    InvalidPosition(Seq<char>),
    UnknownOption(Seq<char>),
    MissingSeparatorValue,
}

impl View for ArgError {
    type V = ArgErrorView;

    open spec fn view(&self) -> ArgErrorView {
        match self {
            ArgError::InvalidPosition(v) => ArgErrorView::InvalidPosition(v@),
            ArgError::UnknownOption(a) => ArgErrorView::UnknownOption(a@),
            ArgError::MissingSeparatorValue => ArgErrorView::MissingSeparatorValue,
        }
    }
}

pub open spec fn has_prefix(s: Seq<char>, p: Seq<char>) -> bool {
    p.len() <= s.len() && s.take(p.len() as int) == p
}

/// `c` is `w`, or the upper-case ASCII letter whose lower case is `w`.
pub open spec fn lowers_to(c: char, w: char) -> bool {
    c == w || (65 <= (c as u32) <= 90 && (c as u32) + 32 == (w as u32))
}

/// `s` equals the lower-case word `w` once ASCII letters are lowered.
pub open spec fn eq_ignore_ascii_case(s: Seq<char>, w: Seq<char>) -> bool {
    s.len() == w.len() && forall|i: int| 0 <= i < s.len() ==> lowers_to(#[trigger] s[i], w[i])
}

pub open spec fn is_digit(c: char) -> bool {
    48 <= (c as u32) <= 57
}

/// The number that the decimal digits `d` write.
pub open spec fn digits_value(d: Seq<char>) -> int
    decreases d.len(),
{
    if d.len() == 0 {
        0
    } else {
        digits_value(d.drop_last()) * 10 + ((d.last() as u32) - 48)
    }
}

/// The digits of a position: the text after an optional leading `+`.
pub open spec fn position_digits(v: Seq<char>) -> Seq<char> {
    if v.len() > 0 && v[0] == '+' { v.skip(1) } else { v }
}

/// The `usize` that `v` writes as `str::parse` reads it: an optional `+`, then
/// at least one decimal digit, and a value that fits.
pub open spec fn parse_position(v: Seq<char>) -> Option<usize> {
    let d = position_digits(v);
    if d.len() > 0 && (forall|i: int| 0 <= i < d.len() ==> is_digit(#[trigger] d[i]))
        && digits_value(d) <= usize::MAX {
        Some(digits_value(d) as usize)
    } else {
        None
    }
}

pub open spec fn word_help_short() -> Seq<char> { seq!['-', 'h'] }
pub open spec fn word_help() -> Seq<char> { seq!['-', '-', 'h', 'e', 'l', 'p'] }
pub open spec fn word_clean() -> Seq<char> { seq!['-', '-', 'c', 'l', 'e', 'a', 'n'] }
pub open spec fn word_trim() -> Seq<char> { seq!['-', '-', 't', 'r', 'i', 'm'] }
pub open spec fn word_out() -> Seq<char> { seq!['-', '-', 'o', 'u', 't'] }
pub open spec fn word_sep() -> Seq<char> { seq!['-', '-', 's', 'e', 'p'] }
pub open spec fn prefix_sep() -> Seq<char> { seq!['-', '-', 's', 'e', 'p', '='] }
pub open spec fn prefix_out() -> Seq<char> { seq!['-', '-', 'o', 'u', 't', '='] }
pub open spec fn prefix_push() -> Seq<char> {
    seq!['-', '-', 'p', 'u', 's', 'h', '-', 's', 't', 'd', 'i', 'n', '-', 'a', 't', '=']
}
pub open spec fn prefix_option() -> Seq<char> { seq!['-', '-'] }
pub open spec fn word_ignore() -> Seq<char> { seq!['i', 'g', 'n', 'o', 'r', 'e'] }
pub open spec fn word_first() -> Seq<char> { seq!['f', 'i', 'r', 's', 't'] }
pub open spec fn word_last() -> Seq<char> { seq!['l', 'a', 's', 't'] }

/// The settings before any argument is read.
pub open spec fn initial_options() -> OptionsView {
    OptionsView {
        files: Seq::empty(),
        separator: Seq::empty(),
        output: None,
        stdin_positions: Seq::empty(),
        stdin_ignored: false,
        show_help: false,
        clean: false,
        trim: false,
    }
}

/// The settings after `--push-stdin-at=` with the value `value`.
pub open spec fn push_stdin_step(o: OptionsView, value: Seq<char>) -> Result<OptionsView, ArgErrorView> {
    if eq_ignore_ascii_case(value, word_ignore()) {
        Ok(OptionsView { stdin_ignored: true, stdin_positions: Seq::empty(), ..o })
    } else {
        let position = if eq_ignore_ascii_case(value, word_first()) {
            Some(0usize)
        } else if eq_ignore_ascii_case(value, word_last()) {
            Some(usize::MAX)
        } else {
            parse_position(value)
        };
        match position {
            Some(p) => if o.stdin_ignored {
                Ok(o)
            } else {
                Ok(OptionsView { stdin_positions: o.stdin_positions.push(p), ..o })
            },
            None => Err(ArgErrorView::InvalidPosition(value)),
        }
    }
}

/// The settings after reading one more argument `arg`.
pub open spec fn arg_step(o: OptionsView, arg: Seq<char>, line_ending: LineEnding) -> Result<OptionsView, ArgErrorView> {
    if arg == word_help_short() || arg == word_help() {
        Ok(OptionsView { show_help: true, ..o })
    } else if arg == word_clean() {
        Ok(OptionsView { clean: true, ..o })
    } else if arg == word_trim() {
        Ok(OptionsView { trim: true, ..o })
    } else if has_prefix(arg, prefix_sep()) {
        Ok(OptionsView {
            separator: crate::separator::separator_of(vstd::utf8::encode_utf8(arg.skip(6)), line_ending),
            ..o
        })
    } else if arg == word_out() || arg == prefix_out() {
        Ok(OptionsView { output: Some(Seq::empty()), ..o })
    } else if has_prefix(arg, prefix_out()) {
        Ok(OptionsView { output: Some(arg.skip(6)), ..o })
    } else if has_prefix(arg, prefix_push()) {
        push_stdin_step(o, arg.skip(16))
    } else if has_prefix(arg, prefix_option()) {
        Err(ArgErrorView::UnknownOption(arg))
    } else {
        Ok(OptionsView { files: o.files.push(arg), ..o })
    }
}

/// The settings after reading `args` in order, and whether the last one
/// was a `--sep` that waits for its value; the first unusable argument
/// decides the error.
pub open spec fn parse_state(args: Seq<Seq<char>>, line_ending: LineEnding) -> Result<(OptionsView, bool), ArgErrorView>
    decreases args.len(),
{
    if args.len() == 0 {
        Ok((initial_options(), false))
    } else {
        let arg = args.last();
        match parse_state(args.drop_last(), line_ending) {
            Ok((o, awaiting)) => if awaiting {
                Ok((OptionsView {
                    separator: crate::separator::separator_of(vstd::utf8::encode_utf8(arg), line_ending),
                    ..o
                }, false))
            } else if arg == word_sep() {
                Ok((o, true))
            } else {
                match arg_step(o, arg, line_ending) {
                    Ok(o2) => Ok((o2, false)),
                    Err(e) => Err(e),
                }
            },
            Err(e) => Err(e),
        }
    }
}

/// The settings that the arguments `args` ask for. `--sep VALUE` (two
/// arguments) is read like `--sep=VALUE`; a `--sep` without a value after it
/// is an error.
pub open spec fn parse_args_spec(args: Seq<Seq<char>>, line_ending: LineEnding) -> Result<OptionsView, ArgErrorView> {
    match parse_state(args, line_ending) {
        Ok((o, awaiting)) => if awaiting { Err(ArgErrorView::MissingSeparatorValue) } else { Ok(o) },
        Err(e) => Err(e),
    }
}

fn starts_with(s: &str, n: usize, p: &[char]) -> (r: bool)
    requires
        n == s@.len(),
    ensures
        r == has_prefix(s@, p@),
{
    if p.len() > n {
        return false;
    }
    let mut i: usize = 0;
    while i < p.len()
        invariant
            p@.len() <= n == s@.len(),
            i <= p@.len(),
            forall|k: int| 0 <= k < i ==> s@[k] == p@[k],
        decreases p.len() - i,
    {
        if s.get_char(i) != p[i] {
            assert(s@.take(p@.len() as int)[i as int] != p@[i as int]);
            return false;
        }
        i += 1;
    }
    assert(s@.take(p@.len() as int) =~= p@);
    true
}

fn equals(s: &str, n: usize, p: &[char]) -> (r: bool)
    requires
        n == s@.len(),
    ensures
        r == (s@ == p@),
{
    let r = n == p.len() && starts_with(s, n, p);
    proof {
        if r {
            assert(s@ =~= s@.take(p@.len() as int));
        }
        if s@ == p@ {
            assert(s@.take(p@.len() as int) =~= p@);
        }
    }
    r
}

fn equals_ignore_ascii_case(s: &str, n: usize, w: &[char]) -> (r: bool)
    requires
        n == s@.len(),
    ensures
        r == eq_ignore_ascii_case(s@, w@),
{
    if n != w.len() {
        return false;
    }
    let mut i: usize = 0;
    while i < n
        invariant
            n == s@.len() == w@.len(),
            i <= n,
            forall|k: int| 0 <= k < i ==> lowers_to(#[trigger] s@[k], w@[k]),
        decreases n - i,
    {
        let c = s.get_char(i);
        let l = w[i];
        if !(c == l || ((c as u32) >= 65 && (c as u32) <= 90 && (c as u32) + 32 == (l as u32))) {
            return false;
        }
        i += 1;
    }
    true
}

proof fn lemma_digits_value_grows(d: Seq<char>, k: int)
    requires
        0 <= k <= d.len(),
        forall|i: int| 0 <= i < d.len() ==> is_digit(#[trigger] d[i]),
    ensures
        digits_value(d.take(k)) <= digits_value(d),
        digits_value(d) >= 0,
    decreases d.len(),
{
    if d.len() > 0 {
        if k < d.len() {
            lemma_digits_value_grows(d.drop_last(), k);
            assert(d.drop_last().take(k) =~= d.take(k));
        } else {
            assert(d.take(k) =~= d);
            lemma_digits_value_grows(d.drop_last(), 0);
        }
    } else {
        assert(d.take(k) =~= d);
    }
}

/// The position that `value` writes, as `str::parse::<usize>` reads it.
pub fn parse_position_value(value: &str) -> (r: Option<usize>)
    ensures
        r == parse_position(value@),
{
    let n = value.unicode_len();
    let mut i: usize = 0;
    if n > 0 && value.get_char(0) == '+' {
        i = 1;
    }
    let ghost d = position_digits(value@);
    assert(d =~= value@.skip(i as int));
    if i == n {
        return None;
    }
    let first = i;
    let mut k = i;
    while k < n
        invariant
            first <= k <= n == value@.len(),
            d == value@.skip(first as int),
            d == position_digits(value@),
            forall|j: int| 0 <= j < k - first ==> is_digit(#[trigger] d[j]),
        decreases n - k,
    {
        let c = value.get_char(k);
        assert(d[k - first] == c);
        if !((c as u32) >= 48 && (c as u32) <= 57) {
            assert(!is_digit(d[k - first]));
            return None;
        }
        k += 1;
    }
    let mut acc: usize = 0;
    let mut k = first;
    while k < n
        invariant
            first <= k <= n == value@.len(),
            d == value@.skip(first as int),
            d == position_digits(value@),
            forall|j: int| 0 <= j < d.len() ==> is_digit(#[trigger] d[j]),
            acc == digits_value(d.take(k - first)),
        decreases n - k,
    {
        let c = value.get_char(k);
        assert(d[k - first] == c);
        let digit = (c as u32 - 48) as usize;
        assert(d.take(k + 1 - first).drop_last() =~= d.take(k - first));
        assert(d.take(k + 1 - first).last() == c);
        proof {
            lemma_digits_value_grows(d, k + 1 - first);
        }
        match acc.checked_mul(10) {
            Some(m) => match m.checked_add(digit) {
                Some(v) => {
                    acc = v;
                }
                None => {
                    return None;
                }
            },
            None => {
                return None;
            }
        }
        k += 1;
    }
    assert(d.take(n - first) =~= d);
    Some(acc)
}

proof fn lemma_error_persists(args: Seq<Seq<char>>, k: int, line_ending: LineEnding)
    requires
        0 <= k <= args.len(),
        parse_state(args.take(k), line_ending) is Err,
    ensures
        parse_state(args, line_ending) == parse_state(args.take(k), line_ending),
    decreases args.len() - k,
{
    if k < args.len() {
        assert(args.drop_last().take(k) =~= args.take(k));
        lemma_error_persists(args.drop_last(), k, line_ending);
    } else {
        assert(args.take(k) =~= args);
    }
}

/// Reads the command-line arguments `args` (without the program name) in
/// order. `line_ending` is what `--sep=EOL` (or `--sep EOL`) stands for.
pub fn parse_args(args: &Vec<String>, line_ending: LineEnding) -> (r: Result<Options, ArgError>)
    ensures
        match r {
            Ok(o) => parse_args_spec(args@.map_values(|a: String| a@), line_ending) == Ok::<OptionsView, ArgErrorView>(o@),
            Err(e) => parse_args_spec(args@.map_values(|a: String| a@), line_ending) == Err::<OptionsView, ArgErrorView>(e@),
        },
{
    let mut files: Vec<String> = Vec::new();
    let mut separator: Vec<u8> = Vec::new();
    let mut output: Option<String> = None;
    let mut stdin_positions: Vec<usize> = Vec::new();
    let mut stdin_ignored = false;
    let mut show_help = false;
    let mut clean = false;
    let mut trim = false;
    let mut awaiting_separator = false;

    let ghost all = args@.map_values(|a: String| a@);
    let mut idx: usize = 0;
    assert(all.take(0) =~= Seq::<Seq<char>>::empty());
    assert(files@.map_values(|f: String| f@) =~= Seq::<Seq<char>>::empty());
    while idx < args.len()
        invariant
            idx <= args@.len(),
            all == args@.map_values(|a: String| a@),
            parse_state(all.take(idx as int), line_ending) == Ok::<(OptionsView, bool), ArgErrorView>((
                (Options { files, separator, output, stdin_positions, stdin_ignored, show_help, clean, trim })@,
                awaiting_separator)),
        decreases args.len() - idx,
    {
        let arg: &str = args[idx].as_str();
        let ghost prev = (Options { files, separator, output, stdin_positions, stdin_ignored, show_help, clean, trim })@;
        let ghost prev_awaiting = awaiting_separator;
        assert(all.take(idx + 1).drop_last() =~= all.take(idx as int));
        assert(all.take(idx + 1).last() == arg@);
        let n = arg.unicode_len();
        if awaiting_separator {
            separator = parse_separator(arg, line_ending).unwrap();
            awaiting_separator = false;
        } else if equals(arg, n, &['-', '-', 's', 'e', 'p']) {
            awaiting_separator = true;
        } else if equals(arg, n, &['-', 'h']) || equals(arg, n, &['-', '-', 'h', 'e', 'l', 'p']) {
            show_help = true;
        } else if equals(arg, n, &['-', '-', 'c', 'l', 'e', 'a', 'n']) {
            clean = true;
        } else if equals(arg, n, &['-', '-', 't', 'r', 'i', 'm']) {
            trim = true;
        } else if starts_with(arg, n, &['-', '-', 's', 'e', 'p', '=']) {
            let value = arg.substring_char(6, n);
            separator = parse_separator(value, line_ending).unwrap();
        } else if equals(arg, n, &['-', '-', 'o', 'u', 't']) || equals(arg, n, &['-', '-', 'o', 'u', 't', '=']) {
            output = Some(String::new());
        } else if starts_with(arg, n, &['-', '-', 'o', 'u', 't', '=']) {
            output = Some(arg.substring_char(6, n).to_owned());
        } else if starts_with(arg, n, &['-', '-', 'p', 'u', 's', 'h', '-', 's', 't', 'd', 'i', 'n', '-', 'a', 't', '=']) {
            let value = arg.substring_char(16, n);
            let vn = value.unicode_len();
            if equals_ignore_ascii_case(value, vn, &['i', 'g', 'n', 'o', 'r', 'e']) {
                stdin_ignored = true;
                stdin_positions.clear();
            } else {
                let position = if equals_ignore_ascii_case(value, vn, &['f', 'i', 'r', 's', 't']) {
                    Some(0usize)
                } else if equals_ignore_ascii_case(value, vn, &['l', 'a', 's', 't']) {
                    Some(usize::MAX)
                } else {
                    parse_position_value(value)
                };
                match position {
                    Some(p) => {
                        if !stdin_ignored {
                            stdin_positions.push(p);
                        }
                    },
                    None => {
                        proof {
                            lemma_error_persists(all, idx + 1, line_ending);
                        }
                        return Err(ArgError::InvalidPosition(value.to_owned()));
                    },
                }
            }
        } else if starts_with(arg, n, &['-', '-']) {
            proof {
                lemma_error_persists(all, idx + 1, line_ending);
            }
            return Err(ArgError::UnknownOption(args[idx].clone()));
        } else {
            files.push(args[idx].clone());
        }
        idx += 1;
        proof {
            if !prev_awaiting && arg@ != word_sep() {
                assert((Options { files, separator, output, stdin_positions, stdin_ignored, show_help, clean, trim })@.files
                    =~= arg_step(prev, arg@, line_ending)->Ok_0.files);
            }
        }
    }
    assert(all.take(idx as int) =~= all);
    if awaiting_separator {
        return Err(ArgError::MissingSeparatorValue);
    }
    Ok(Options { files, separator, output, stdin_positions, stdin_ignored, show_help, clean, trim })
}


/// Adding `--trim` or `--clean` at the end of a usable command line switches
/// on that one setting and leaves every other setting as it was.
pub proof fn lemma_flag_sets_only_its_own_field(args: Seq<Seq<char>>, line_ending: LineEnding)
    ensures
        parse_args_spec(args, line_ending) matches Ok(o) ==>
            parse_args_spec(args.push(seq!['-', '-', 't', 'r', 'i', 'm']), line_ending)
                == Ok::<OptionsView, ArgErrorView>(OptionsView { trim: true, ..o }),
        parse_args_spec(args, line_ending) matches Ok(o) ==>
            parse_args_spec(args.push(seq!['-', '-', 'c', 'l', 'e', 'a', 'n']), line_ending)
                == Ok::<OptionsView, ArgErrorView>(OptionsView { clean: true, ..o }),
{
    let t = seq!['-', '-', 't', 'r', 'i', 'm'];
    let c = seq!['-', '-', 'c', 'l', 'e', 'a', 'n'];
    assert(args.push(t).drop_last() =~= args);
    assert(args.push(c).drop_last() =~= args);
    assert(args.push(t).last() == t);
    assert(args.push(c).last() == c);
    assert(t != word_sep() && t != word_help_short() && t != word_help() && t != word_clean()) by {
        assert(t[2] != word_sep()[2]);
        assert(t.len() != word_help_short().len());
        assert(t[2] != word_help()[2]);
        assert(t.len() != word_clean().len());
    }
    assert(t == word_trim());
    assert(c != word_sep() && c != word_help_short() && c != word_help()) by {
        assert(c.len() != word_sep().len());
        assert(c.len() != word_help_short().len());
        assert(c.len() != word_help().len());
    }
    assert(c == word_clean());
}

/// Cleaning and trimming are on only when asked for: in the settings of a
/// usable command line, `clean` is set only if some argument is `--clean`,
/// and `trim` only if some argument is `--trim`.
pub proof fn lemma_flags_come_from_arguments(args: Seq<Seq<char>>, line_ending: LineEnding)
    ensures
        parse_args_spec(args, line_ending) matches Ok(o) ==> {
            &&& o.clean ==> exists|i: int| 0 <= i < args.len() && #[trigger] args[i] == seq!['-', '-', 'c', 'l', 'e', 'a', 'n']
            &&& o.trim ==> exists|i: int| 0 <= i < args.len() && #[trigger] args[i] == seq!['-', '-', 't', 'r', 'i', 'm']
        },
{
    lemma_flags_in_state(args, line_ending);
}

proof fn lemma_flags_in_state(args: Seq<Seq<char>>, line_ending: LineEnding)
    ensures
        parse_state(args, line_ending) matches Ok((o, _)) ==> {
            &&& o.clean ==> exists|i: int| 0 <= i < args.len() && #[trigger] args[i] == seq!['-', '-', 'c', 'l', 'e', 'a', 'n']
            &&& o.trim ==> exists|i: int| 0 <= i < args.len() && #[trigger] args[i] == seq!['-', '-', 't', 'r', 'i', 'm']
        },
    decreases args.len(),
{
    if args.len() > 0 {
        let p = args.drop_last();
        let arg = args.last();
        lemma_flags_in_state(p, line_ending);
        assert(word_clean() == seq!['-', '-', 'c', 'l', 'e', 'a', 'n']);
        assert(word_trim() == seq!['-', '-', 't', 'r', 'i', 'm']);
        if let Ok((o, _)) = parse_state(p, line_ending) {
            if o.clean {
                let i = choose|i: int| 0 <= i < p.len() && #[trigger] p[i] == seq!['-', '-', 'c', 'l', 'e', 'a', 'n'];
                assert(args[i] == p[i]);
            }
            if o.trim {
                let i = choose|i: int| 0 <= i < p.len() && #[trigger] p[i] == seq!['-', '-', 't', 'r', 'i', 'm'];
                assert(args[i] == p[i]);
            }
        }
        assert(args[args.len() - 1] == arg);
    }
}
} // verus!
