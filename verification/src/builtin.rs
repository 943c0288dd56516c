use vstd::prelude::*;

use crate::escapes::{cluster_bounds, echo_bytes, grapheme_clusters, interpret_echo_text};
use crate::parser::strings_view;
use crate::process::Process;
use crate::text::{
    chars_of, push_char, spec_string_replace_all, str_equal, string_replace_all_result,
    string_replace_all_str, write_str,
};

verus! {

/// The names of the commands that the shell runs itself.
pub open spec fn is_builtin_name(cmd: Seq<char>) -> bool {
    cmd == "cd"@ || cmd == "exit"@ || cmd == "pwd"@ || cmd == "echo"@ || cmd == "clear"@
}

/// Whether `cmd` is one of the commands the shell runs itself: `cd`, `exit`,
/// `pwd`, `echo`, `clear`.
pub fn is_builtin(cmd: &str) -> (r: bool)
    ensures
        r == is_builtin_name(cmd@),
{
    if str_equal(cmd, "cd") || str_equal(cmd, "exit") || str_equal(cmd, "pwd") || str_equal(
        cmd,
        "echo",
    ) || str_equal(cmd, "clear") {
        return true;
    }
    false
}

/// Whether an argument of `echo` is an option word (it starts with `-`).
pub open spec fn is_option_word(arg: Seq<char>) -> bool {
    arg.len() > 0 && arg[0] == '-'
}

/// The index of the first argument from `i` on that is not an option word.
pub open spec fn first_operand(args: Seq<Seq<char>>, i: int) -> int
    decreases args.len() - i,
{
    if i < 0 || i >= args.len() {
        args.len() as int
    } else if is_option_word(args[i]) {
        first_operand(args, i + 1)
    } else {
        i
    }
}

/// Whether one of the leading option words of `echo`'s arguments holds `c`.
pub open spec fn option_given(args: Seq<Seq<char>>, c: char) -> bool {
    exists|j: int| 0 <= j < first_operand(args, 0) && (#[trigger] args[j]).contains(c)
}

/// The words joined, each followed by one space.
pub open spec fn spaced(words: Seq<Seq<char>>) -> Seq<char>
    decreases words.len(),
{
    if words.len() == 0 {
        Seq::empty()
    } else {
        spaced(words.drop_last()) + words.last().push(' ')
    }
}

/// The text that `echo` prints: its operands (the arguments from the first one
/// that is not an option word on), each followed by a space.
pub open spec fn echo_text(args: Seq<Seq<char>>) -> Seq<char> {
    spaced(args.skip(first_operand(args, 0)))
}

/// Whether escape interpretation is on after the option letter `c`: `e`
/// turns it on, `E` off, other letters leave it as it was.
pub open spec fn escape_option_step(on: bool, c: char) -> bool {
    if c == 'e' {
        true
    } else if c == 'E' {
        false
    } else {
        on
    }
}

/// Whether escape interpretation is on after the option letters `cs`, starting
/// from `on`.
pub open spec fn escape_option_state(cs: Seq<char>, on: bool) -> bool
    decreases cs.len(),
{
    if cs.len() == 0 {
        on
    } else {
        escape_option_step(escape_option_state(cs.drop_last(), on), cs.last())
    }
}

/// Whether `echo` interprets escapes: of the letters `e` (enable) and `E`
/// (disable) in its option words, the last one decides; off by default.
pub open spec fn escapes_enabled(args: Seq<Seq<char>>) -> bool {
    escape_option_state(args.take(first_operand(args, 0)).flatten(), false)
}

/// What `echo` writes: the text, with escapes interpreted when they are
/// enabled, then a newline unless an option word holds `n`.  Option words are
/// those before the first operand.
pub open spec fn echo_output(args: Seq<Seq<char>>) -> Seq<u8> {
    (if escapes_enabled(args) {
        echo_bytes(echo_text(args), cluster_bounds(grapheme_clusters(echo_text(args))), 0)
    } else {
        vstd::utf8::encode_utf8(echo_text(args))
    }) + (if option_given(args, 'n') {
        Seq::<u8>::empty()
    } else {
        seq![0x0Au8]
    })
}

proof fn lemma_escape_option_concat(x: Seq<char>, y: Seq<char>, on: bool)
    ensures
        escape_option_state(x + y, on) == escape_option_state(y, escape_option_state(x, on)),
    decreases y.len(),
{
    if y.len() == 0 {
        assert(x + y =~= x);
    } else {
        lemma_escape_option_concat(x, y.drop_last(), on);
        assert((x + y).drop_last() =~= x + y.drop_last());
        assert((x + y).last() == y.last());
    }
}

/// The escape state after the option letters of `word`, starting from `on`.
fn escape_option_after(word: &String, on: bool) -> (r: bool)
    ensures
        r == escape_option_state(word@, on),
{
    let v = chars_of(word.as_str());
    let mut state = on;
    let mut k: usize = 0;
    while k < v.len()
        invariant
            v@ == word@,
            k <= v.len(),
            state == escape_option_state(v@.take(k as int), on),
        decreases v.len() - k,
    {
        assert(v@.take(k + 1).drop_last() =~= v@.take(k as int));
        let c = v[k];
        if c == 'e' {
            state = true;
        } else if c == 'E' {
            state = false;
        }
        k = k + 1;
    }
    assert(v@.take(k as int) =~= v@);
    state
}

/// What a builtin asks of its caller besides what it writes.
pub enum BuiltinRequest {
    /// Nothing further.
    Done,
    /// Leave the shell.
    Exit,
    /// Change the working directory (see [`cd_plan`]).
    ChangeDirectory,
    /// Write the working directory and a newline to the output.
    PrintWorkingDirectory,
    /// Clear the terminal.
    ClearScreen,
    /// Write this message to the error stream.
    Complain(String),
}

/// The value of a [`BuiltinRequest`].
pub enum SpecRequest {
    Done,
    Exit,
    ChangeDirectory,
    PrintWorkingDirectory,
    ClearScreen,
    Complain(Seq<char>),
}

impl View for BuiltinRequest {
    type V = SpecRequest;

    open spec fn view(&self) -> SpecRequest {
        match self {
            BuiltinRequest::Done => SpecRequest::Done,
            BuiltinRequest::Exit => SpecRequest::Exit,
            BuiltinRequest::ChangeDirectory => SpecRequest::ChangeDirectory,
            BuiltinRequest::PrintWorkingDirectory => SpecRequest::PrintWorkingDirectory,
            BuiltinRequest::ClearScreen => SpecRequest::ClearScreen,
            BuiltinRequest::Complain(m) => SpecRequest::Complain(m@),
        }
    }
}

/// What running the builtin `cmd` with `args` asks of the caller.
pub open spec fn builtin_request(cmd: Seq<char>, args: Seq<Seq<char>>) -> SpecRequest {
    if cmd == "exit"@ {
        SpecRequest::Exit
    } else if cmd == "cd"@ {
        SpecRequest::ChangeDirectory
    } else if cmd == "pwd"@ {
        if args.len() == 0 {
            SpecRequest::PrintWorkingDirectory
        } else {
            SpecRequest::Complain("pwd: too many args"@)
        }
    } else if cmd == "clear"@ {
        SpecRequest::ClearScreen
    } else {
        SpecRequest::Done
    }
}

/// The bytes that running the builtin `cmd` with `args` writes to the output.
pub open spec fn builtin_output(cmd: Seq<char>, args: Seq<Seq<char>>) -> Seq<u8> {
    if cmd == "echo"@ {
        echo_output(args)
    } else {
        Seq::empty()
    }
}

/// Whether `word` holds the character `c`.
fn contains_char(word: &String, c: char) -> (r: bool)
    ensures
        r == word@.contains(c),
{
    let v = chars_of(word.as_str());
    let mut i: usize = 0;
    while i < v.len()
        invariant
            v@ == word@,
            i <= v.len(),
            forall|j: int| 0 <= j < i ==> v@[j] != c,
        decreases v.len() - i,
    {
        if v[i] == c {
            return true;
        }
        i = i + 1;
    }
    false
}

/// Whether `word` starts with `-`.
fn starts_with_dash(word: &String) -> (r: bool)
    ensures
        r == is_option_word(word@),
{
    let v = chars_of(word.as_str());
    v.len() > 0 && v[0] == '-'
}

/// Writes what `echo` prints for `args` to `out`.
fn echo(out: &mut Vec<u8>, args: &Vec<String>)
    ensures
        final(out)@ == old(out)@ + echo_output(strings_view(args@)),
{
    let ghost a = strings_view(args@);
    let mut flag_n = false;
    let mut flag_e = false;
    let mut found_flags = false;
    let mut first: usize = 0;
    let mut output = String::new();
    let mut i: usize = 0;
    assert(a.take(0).flatten() =~= Seq::<char>::empty());
    while i < args.len()
        invariant
            a == strings_view(args@),
            a.len() == args.len(),
            i <= args.len(),
            !found_flags ==> first_operand(a, 0) == first_operand(a, i as int),
            !found_flags ==> output@ == Seq::<char>::empty(),
            !found_flags ==> (flag_n <==> exists|j: int| 0 <= j < i && (#[trigger] a[j]).contains('n')),
            !found_flags ==> flag_e == escape_option_state(a.take(i as int).flatten(), false),
            found_flags ==> first == first_operand(a, 0) && first < i,
            found_flags ==> output@ == spaced(a.subrange(first as int, i as int)),
            found_flags ==> (flag_n <==> option_given(a, 'n')),
            found_flags ==> flag_e == escapes_enabled(a),
        decreases args.len() - i,
    {
        let arg = &args[i];
        assert(a[i as int] == arg@);
        if !found_flags && starts_with_dash(arg) {
            if contains_char(arg, 'n') {
                flag_n = true;
            }
            proof {
                assert(a.take(i + 1) =~= a.take(i as int).push(a[i as int]));
                a.take(i as int).lemma_flatten_push(a[i as int]);
                lemma_escape_option_concat(a.take(i as int).flatten(), a[i as int], false);
            }
            flag_e = escape_option_after(arg, flag_e);
            proof {
                assert(first_operand(a, i as int) == first_operand(a, i + 1));
            }
        } else {
            if !found_flags {
                found_flags = true;
                first = i;
                proof {
                    assert(first_operand(a, i as int) == i);
                    assert(a.subrange(i as int, i as int) =~= Seq::<Seq<char>>::empty());
                    assert forall|c: char| (exists|j: int| 0 <= j < i && (#[trigger] a[j]).contains(c)) == option_given(a, c) by {}
                }
            }
            let ghost before = output@;
            output.append(arg.as_str());
            push_char(&mut output, ' ');
            proof {
                let sub = a.subrange(first as int, i + 1);
                assert(sub.drop_last() =~= a.subrange(first as int, i as int));
                assert(sub.last() == arg@);
                assert(output@ =~= before + arg@.push(' '));
                assert(spaced(sub) == spaced(sub.drop_last()) + sub.last().push(' '));
                assert(before == spaced(a.subrange(first as int, i as int)));
            }
        }
        i = i + 1;
    }
    proof {
        if !found_flags {
            assert(first_operand(a, i as int) == a.len());
            assert(a.skip(a.len() as int) =~= Seq::<Seq<char>>::empty());
            assert(a.take(a.len() as int) =~= a);
            assert forall|c: char| (exists|j: int| 0 <= j < i && (#[trigger] a[j]).contains(c)) == option_given(a, c) by {}
        } else {
            assert(a.subrange(first as int, i as int) =~= a.skip(first as int));
        }
        assert(output@ == echo_text(a));
    }
    let ghost start = out@;
    if flag_e {
        let bytes = interpret_echo_text(output.as_str());
        out.extend_from_slice(bytes.as_slice());
    } else {
        write_str(out, output.as_str());
    }
    if !flag_n {
        out.push(0x0Au8);
    }
    assert(out@ =~= start + echo_output(a));
}

/// Runs the builtin `proc.cmd`: `echo` writes its output to `out`; the others
/// write nothing and return what the caller has to do (`exit`, `cd`, `pwd`,
/// `clear`; names that are no builtin ask for nothing).
pub fn run_builtin(out: &mut Vec<u8>, proc: &Process) -> (r: BuiltinRequest)
    ensures
        r@ == builtin_request(proc@.cmd, proc@.args),
        final(out)@ == old(out)@ + builtin_output(proc@.cmd, proc@.args),
{
    let cmd = proc.cmd.as_str();
    assert(proc@.args == strings_view(proc.args@));
    proof {
        reveal_strlit("cd");
        reveal_strlit("exit");
        reveal_strlit("pwd");
        reveal_strlit("echo");
        reveal_strlit("clear");
        assert("echo"@[1] != "exit"@[1]);
        assert("echo"@ != "exit"@);
        assert("cd"@.len() == 2 && "pwd"@.len() == 3 && "exit"@.len() == 4 && "clear"@.len() == 5);
    }
    if str_equal(cmd, "exit") {
        assert(final(out)@ =~= old(out)@ + Seq::<u8>::empty());
        BuiltinRequest::Exit
    } else if str_equal(cmd, "cd") {
        assert(final(out)@ =~= old(out)@ + Seq::<u8>::empty());
        BuiltinRequest::ChangeDirectory
    } else if str_equal(cmd, "pwd") {
        assert(final(out)@ =~= old(out)@ + Seq::<u8>::empty());
        if proc.args.len() == 0 {
            BuiltinRequest::PrintWorkingDirectory
        } else {
            BuiltinRequest::Complain(String::from_str("pwd: too many args"))
        }
    } else if str_equal(cmd, "echo") {
        echo(out, &proc.args);
        BuiltinRequest::Done
    } else if str_equal(cmd, "clear") {
        assert(final(out)@ =~= old(out)@ + Seq::<u8>::empty());
        BuiltinRequest::ClearScreen
    } else {
        assert(final(out)@ =~= old(out)@ + Seq::<u8>::empty());
        BuiltinRequest::Done
    }
}

/// How `cd` changes the working directory.
pub enum CdPlan {
    /// Enter this directory; failing to is an error of the shell.
    Enter(String),
    /// Enter `path` if it is a directory; otherwise write `complaint` to the
    /// error stream.
    TryEnter { path: String, complaint: String },
    /// Write this message to the error stream.
    Complain(String),
}

/// The value of a [`CdPlan`].
pub enum SpecCdPlan {
    Enter(Seq<char>),
    TryEnter { path: Seq<char>, complaint: Seq<char> },
    Complain(Seq<char>),
}

impl View for CdPlan {
    type V = SpecCdPlan;

    open spec fn view(&self) -> SpecCdPlan {
        match self {
            CdPlan::Enter(p) => SpecCdPlan::Enter(p@),
            CdPlan::TryEnter { path, complaint } => SpecCdPlan::TryEnter {
                path: path@,
                complaint: complaint@,
            },
            CdPlan::Complain(m) => SpecCdPlan::Complain(m@),
        }
    }
}

/// What `cd` with `args` does when the home directory is `home`: no argument
/// goes home; one argument names the directory, each `~` in it standing for
/// `home` (through `string_replace_all`, whose result is named); more arguments
/// are refused.
pub open spec fn spec_cd_plan(args: Seq<Seq<char>>, home: Seq<char>) -> SpecCdPlan {
    if args.len() == 0 {
        SpecCdPlan::Enter(home)
    } else if args.len() == 1 {
        SpecCdPlan::TryEnter {
            path: string_replace_all_result(args[0], "~"@, home),
            complaint: "cd: invalid directory "@ + args[0],
        }
    } else {
        SpecCdPlan::Complain("cd: incorrect args"@)
    }
}

/// Plans `cd` with `args`, the home directory being `home` (see
/// [`spec_cd_plan`]).  For a home directory without `$` the path of a single
/// argument is that argument with its `~` replaced as
/// [`spec_string_replace_all`] says.
pub fn cd_plan(args: &Vec<String>, home: &str) -> (r: CdPlan)
    requires
        home@.len() <= 16384,
    ensures
        r@ == spec_cd_plan(strings_view(args@), home@),
        args@.len() == 1 && !home@.contains('$') ==> (r@ matches SpecCdPlan::TryEnter { path, .. }
            && path == spec_string_replace_all(args@[0]@, "~"@, home@)),
{
    if args.len() == 0 {
        CdPlan::Enter(String::from_str(home))
    } else if args.len() == 1 {
        let dir = args[0].as_str();
        let path = string_replace_all_str(dir, "~", home);
        let complaint = String::from_str("cd: invalid directory ").concat(dir);
        CdPlan::TryEnter { path, complaint }
    } else {
        CdPlan::Complain(String::from_str("cd: incorrect args"))
    }
}

proof fn lemma_first_operand_after_option(x: Seq<char>, args: Seq<Seq<char>>, k: int)
    requires
        is_option_word(x),
        0 <= k,
    ensures
        first_operand(seq![x] + args, k + 1) == first_operand(args, k) + 1,
    decreases args.len() - k,
{
    let a2 = seq![x] + args;
    if k < args.len() {
        assert(a2[k + 1] == args[k]);
        lemma_first_operand_after_option(x, args, k + 1);
    }
}

/// `-n` decides only the trailing newline: the output of `echo` with its
/// arguments is the output with `-n` put in front of them, followed by a
/// newline exactly when no option word before the first operand holds `n`.
/// Option words are the leading arguments that start with `-`.
pub proof fn law_n_option_decides_the_newline(args: Seq<Seq<char>>)
    ensures
        forall|j: int| 0 <= j < first_operand(args, 0) ==> is_option_word(#[trigger] args[j]),
        first_operand(args, 0) < args.len() ==> !is_option_word(args[first_operand(args, 0)]),
        echo_output(args) == echo_output(seq!["-n"@] + args) + (if exists|j: int|
            0 <= j < first_operand(args, 0) && (#[trigger] args[j]).contains('n') {
            Seq::<u8>::empty()
        } else {
            seq![0x0Au8]
        }),
{
    lemma_first_operand_options(args, 0);
    let x = "-n"@;
    reveal_strlit("-n");
    let a2 = seq![x] + args;
    let f = first_operand(args, 0);
    lemma_first_operand_after_option(x, args, 0);
    assert(first_operand(a2, 0) == first_operand(a2, 1));
    assert(first_operand(a2, 0) == f + 1);
    assert(a2.skip(f + 1) =~= args.skip(f));
    assert(echo_text(a2) == echo_text(args));
    assert(a2.take(f + 1) =~= seq![x] + args.take(f));
    lemma_flatten_prepend(x, args.take(f));
    lemma_escape_option_concat(x, args.take(f).flatten(), false);
    assert(x.drop_last() =~= seq!['-']);
    assert(seq!['-'].drop_last() =~= Seq::<char>::empty());
    assert(escape_option_state(Seq::<char>::empty(), false) == false);
    assert(seq!['-'].last() == '-');
    assert(escape_option_state(seq!['-'], false) == false);
    assert(x.last() == 'n');
    assert(escape_option_state(x, false) == escape_option_step(escape_option_state(x.drop_last(), false), x.last()));
    assert(escape_option_state(x, false) == false);
    assert(escapes_enabled(a2) == escapes_enabled(args));
    assert(a2[0] == x);
    assert(x.contains('n')) by {
        assert(x[1] == 'n');
    }
    assert(option_given(a2, 'n'));
    let tail = if option_given(args, 'n') {
        Seq::<u8>::empty()
    } else {
        seq![0x0Au8]
    };
    let body = if escapes_enabled(args) {
        echo_bytes(echo_text(args), cluster_bounds(grapheme_clusters(echo_text(args))), 0)
    } else {
        vstd::utf8::encode_utf8(echo_text(args))
    };
    assert(echo_output(a2) =~= body + Seq::<u8>::empty());
}

proof fn lemma_first_operand_options(args: Seq<Seq<char>>, i: int)
    requires
        0 <= i,
    ensures
        i <= first_operand(args, i) || i >= args.len(),
        first_operand(args, i) <= args.len(),
        forall|j: int| i <= j < first_operand(args, i) ==> is_option_word(#[trigger] args[j]),
        first_operand(args, i) < args.len() ==> !is_option_word(args[first_operand(args, i)]),
    decreases args.len() - i,
{
    if i < args.len() && is_option_word(args[i]) {
        lemma_first_operand_options(args, i + 1);
    }
}

proof fn lemma_flatten_prepend(x: Seq<char>, s: Seq<Seq<char>>)
    ensures
        (seq![x] + s).flatten() == x + s.flatten(),
{
    assert((seq![x] + s).drop_first() =~= s);
    assert((seq![x] + s)[0] == x);
}

/// What each builtin asks of the shell, whatever its arguments: `exit` to leave
/// it, `cd` to change the working directory (with no argument, to enter the
/// home directory), `clear` to clear the screen, `pwd` to print the working
/// directory when it has no argument and to complain otherwise; `echo` asks
/// for nothing further.
pub proof fn law_builtin_requests(args: Seq<Seq<char>>, home: Seq<char>)
    ensures
        builtin_request("exit"@, args) == SpecRequest::Exit,
        builtin_request("cd"@, args) == SpecRequest::ChangeDirectory,
        builtin_request("clear"@, args) == SpecRequest::ClearScreen,
        builtin_request("echo"@, args) == SpecRequest::Done,
        args.len() == 0 ==> builtin_request("pwd"@, args) == SpecRequest::PrintWorkingDirectory,
        args.len() > 0 ==> builtin_request("pwd"@, args) is Complain,
        spec_cd_plan(Seq::<Seq<char>>::empty(), home) == SpecCdPlan::Enter(home),
{
    reveal_strlit("cd");
    reveal_strlit("exit");
    reveal_strlit("pwd");
    reveal_strlit("echo");
    reveal_strlit("clear");
    assert("echo"@[1] != "exit"@[1]);
    assert("clear"@[0] != "exit"@[0]);
    assert("clear"@.len() != "cd"@.len());
    assert("pwd"@.len() != "cd"@.len());
    assert("echo"@.len() != "cd"@.len());
    assert("cd"@.len() != "exit"@.len());
    assert("pwd"@.len() != "exit"@.len());
    assert("echo"@.len() != "pwd"@.len());
    assert("clear"@.len() != "pwd"@.len());
    assert("echo"@.len() != "clear"@.len());
}

} // verus!
