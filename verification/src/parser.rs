use vstd::prelude::*;

use crate::env::{env_lookup, Environment};
use crate::lexer::{tokens_view, SpecToken, Token};
use crate::plan::clone_strings;
use crate::text::{pop_char, push_char};

verus! {

/// The operators that combine commands.
#[derive(Debug, Clone, Copy, PartialEq, Eq, Structural)]
pub enum Operator {
    Pipe,
    RedirectInput,
    RedirectOutput,
    RedirectOutputAppend,
    And,
    Or,
}

/// A node of the syntax tree of a command line.
#[derive(Debug)]
pub enum Node {
    Command { cmd: String, args: Vec<String> },
    Subshell { cmd: String },
    InlineGroup { cmds: Vec<Node> },
    Redirect { op: Operator, cmds: Vec<Node>, file: String },
    Binary { op: Operator, left: Box<Node>, right: Box<Node> },
}

/// The mathematical value of a [`Node`].
pub enum SpecNode {
    Command { cmd: Seq<char>, args: Seq<Seq<char>> },
    Subshell { cmd: Seq<char> },
    InlineGroup { cmds: Seq<SpecNode> },
    Redirect { op: Operator, cmds: Seq<SpecNode>, file: Seq<char> },
    Binary { op: Operator, left: Box<SpecNode>, right: Box<SpecNode> },
}

pub open spec fn strings_view(v: Seq<String>) -> Seq<Seq<char>> {
    v.map_values(|s: String| s@)
}

pub open spec fn node_view(n: Node) -> SpecNode
    decreases n, 1int,
{
    match n {
        Node::Command { cmd, args } => SpecNode::Command { cmd: cmd@, args: strings_view(args@) },
        Node::Subshell { cmd } => SpecNode::Subshell { cmd: cmd@ },
        Node::InlineGroup { cmds } => SpecNode::InlineGroup { cmds: nodes_view(cmds@) },
        Node::Redirect { op, cmds, file } => SpecNode::Redirect {
            op,
            cmds: nodes_view(cmds@),
            file: file@,
        },
        Node::Binary { op, left, right } => SpecNode::Binary {
            op,
            left: Box::new(node_view(*left)),
            right: Box::new(node_view(*right)),
        },
    }
}

pub open spec fn nodes_view(ns: Seq<Node>) -> Seq<SpecNode>
    decreases ns, 0int,
{
    if ns.len() == 0 {
        seq![]
    } else {
        nodes_view(ns.drop_last()).push(node_view(ns.last()))
    }
}

/// A copy of `n`.
fn clone_node(n: &Node) -> (r: Node)
    ensures
        r@ == n@,
    decreases n, 1int,
{
    match n {
        Node::Command { cmd, args } => Node::Command { cmd: cmd.clone(), args: clone_strings(args) },
        Node::Subshell { cmd } => Node::Subshell { cmd: cmd.clone() },
        Node::InlineGroup { cmds } => Node::InlineGroup { cmds: clone_nodes(cmds) },
        Node::Redirect { op, cmds, file } => Node::Redirect {
            op: *op,
            cmds: clone_nodes(cmds),
            file: file.clone(),
        },
        Node::Binary { op, left, right } => {
            let l = clone_node(left);
            let r = clone_node(right);
            Node::Binary { op: *op, left: Box::new(l), right: Box::new(r) }
        },
    }
}

/// A copy of each node of `v`.
fn clone_nodes(v: &Vec<Node>) -> (r: Vec<Node>)
    ensures
        nodes_view(r@) == nodes_view(v@),
    decreases v, 0int,
{
    let mut r: Vec<Node> = Vec::new();
    let mut i: usize = 0;
    proof {
        assert(v@.take(0) =~= Seq::<Node>::empty());
        assert(r@ =~= Seq::<Node>::empty());
    }
    while i < v.len()
        invariant
            i <= v.len(),
            nodes_view(r@) == nodes_view(v@.take(i as int)),
        decreases v.len() - i,
    {
        proof {
            assert(decreases_to!(v => v@[i as int]));
        }
        let c = clone_node(&v[i]);
        proof {
            assert(v@.take(i + 1) =~= v@.take(i as int).push(v@[i as int]));
            lemma_nodes_push(r@, c);
            lemma_nodes_push(v@.take(i as int), v@[i as int]);
        }
        r.push(c);
        i = i + 1;
    }
    assert(v@.take(v.len() as int) =~= v@);
    r
}

impl Clone for Node {
    fn clone(&self) -> (r: Self)
        ensures
            r@ == self@,
    {
        clone_node(self)
    }
}

impl View for Node {
    type V = SpecNode;

    open spec fn view(&self) -> SpecNode {
        node_view(*self)
    }
}


/// A well-formed node: every redirection to or from a file has exactly one
/// command, every pipeline at least two members, there is no binary node, and
/// the same holds of all members.
pub open spec fn node_wf(n: SpecNode) -> bool
    decreases n, 1int,
{
    match n {
        SpecNode::Command { .. } => true,
        SpecNode::Subshell { .. } => true,
        SpecNode::InlineGroup { cmds } => nodes_wf(cmds),
        SpecNode::Redirect { op, cmds, .. } => (if op == Operator::Pipe {
            cmds.len() >= 2
        } else {
            (op == Operator::RedirectInput || op == Operator::RedirectOutput) && cmds.len() == 1
        }) && nodes_wf(cmds),
        SpecNode::Binary { .. } => false,
    }
}

/// All nodes of `ns` are well-formed.
pub open spec fn nodes_wf(ns: Seq<SpecNode>) -> bool
    decreases ns, 0int,
{
    if ns.len() == 0 {
        true
    } else {
        nodes_wf(ns.drop_last()) && node_wf(ns.last())
    }
}

pub proof fn lemma_nodes_wf_push(ns: Seq<SpecNode>, n: SpecNode)
    ensures
        nodes_wf(ns.push(n)) == (nodes_wf(ns) && node_wf(n)),
{
    assert(ns.push(n).drop_last() =~= ns);
}

pub proof fn lemma_nodes_wf_index(ns: Seq<SpecNode>, k: int)
    requires
        nodes_wf(ns),
        0 <= k < ns.len(),
    ensures
        node_wf(ns[k]),
    decreases ns.len(),
{
    if k < ns.len() - 1 {
        lemma_nodes_wf_index(ns.drop_last(), k);
    }
}

/// The variables that `$NAME` expands to, as values.
pub type EnvView = Seq<(Seq<char>, Result<Seq<char>, Seq<char>>)>;

/// Why a parse stopped: a syntax error with its message, or an input on which
/// the parser has no defined outcome (it would take a node from an empty
/// group).
pub enum Failure {
    Error(Seq<char>),
    Abort,
}

/// The outcome of building one node at a position: the position after it, the
/// stack of finished nodes left below it, and the node.
pub type Built = Result<(int, Seq<SpecNode>, SpecNode), Failure>;

/// The arguments of a command, from position `i` on: words, and `$NAME`
/// expanded through `env`; a `$` at the end stands for itself.
pub open spec fn command_args(toks: Seq<SpecToken>, env: EnvView, i: int) -> Result<
    (int, Seq<Seq<char>>),
    Failure,
>
    decreases toks.len() - i,
{
    if i < 0 || i >= toks.len() {
        Ok((i, seq![]))
    } else {
        match toks[i] {
            SpecToken::Id(a) => match command_args(toks, env, i + 1) {
                Ok((j, rest)) => Ok((j, seq![a] + rest)),
                Err(f) => Err(f),
            },
            SpecToken::Dollar => if i + 1 >= toks.len() {
                Ok((i + 1, seq![seq!['$']]))
            } else {
                match toks[i + 1] {
                    SpecToken::Id(key) => match env_lookup(env, key) {
                        Ok(v) => match command_args(toks, env, i + 2) {
                            Ok((j, rest)) => Ok((j, seq![v] + rest)),
                            Err(f) => Err(f),
                        },
                        Err(e) => Err(Failure::Error(e)),
                    },
                    _ => Err(Failure::Error("invalid argument to $"@)),
                }
            },
            _ => Ok((i, seq![])),
        }
    }
}

/// The command whose name is the word at `i`.
pub open spec fn command(toks: Seq<SpecToken>, env: EnvView, i: int, ast: Seq<SpecNode>) -> Built {
    if 0 <= i < toks.len() {
        match toks[i] {
            SpecToken::Id(cmd) => match command_args(toks, env, i + 1) {
                Ok((j, args)) => Ok((j, ast, SpecNode::Command { cmd, args })),
                Err(f) => Err(f),
            },
            _ => Err(Failure::Abort),
        }
    } else {
        Err(Failure::Abort)
    }
}

/// How a token is written back into the text of a subshell.
pub open spec fn render(t: SpecToken) -> Seq<char> {
    match t {
        SpecToken::Id(a) => a.push(' '),
        SpecToken::Semicolon => seq![';'],
        SpecToken::Dollar => seq!['$'],
        SpecToken::LeftParen => seq!['('],
        SpecToken::RightParen => seq![')'],
        SpecToken::LeftCurlyBracket => seq!['{'],
        SpecToken::RightCurlyBracket => seq!['}'],
        SpecToken::Pipe => seq!['|'],
        SpecToken::RedirectInput => seq!['<'],
        SpecToken::RedirectOutput => seq!['>'],
        SpecToken::RedirectOutputAppend => seq!['>', '>'],
        SpecToken::Background => seq!['&'],
        SpecToken::And => seq!['&', '&'],
        SpecToken::Or => seq!['|', '|'],
    }
}

/// Scans the body of a subshell from `i` with `depth` parentheses open: the
/// position where the scan stops, the text written so far (the closing `)`
/// included) and the number of parentheses still open.
pub open spec fn subshell_scan(toks: Seq<SpecToken>, i: int, depth: nat) -> (int, Seq<char>, nat)
    decreases toks.len() - i,
{
    if depth == 0 || i < 0 || i >= toks.len() {
        (i, seq![], depth)
    } else {
        let d = match toks[i] {
            SpecToken::LeftParen => depth + 1,
            SpecToken::RightParen => (depth - 1) as nat,
            _ => depth,
        };
        let (j, rest, e) = subshell_scan(toks, i + 1, d);
        (j, render(toks[i]) + rest, e)
    }
}

/// The subshell whose `(` is at `i`: the text between the parentheses.
pub open spec fn subshell(toks: Seq<SpecToken>, i: int, ast: Seq<SpecNode>) -> Built {
    let (j, text, open) = subshell_scan(toks, i + 1, 1);
    if open > 0 {
        Err(Failure::Error("unmatched '('"@))
    } else {
        Ok((j, ast, SpecNode::Subshell { cmd: if text.len() > 0 { text.drop_last() } else { text } }))
    }
}

/// The message of a malformed redirection with operator `op`.
pub open spec fn redirect_message(op: Operator) -> Seq<char> {
    if op == Operator::RedirectInput {
        "parse error near '<'"@
    } else {
        "parse error near '>'"@
    }
}

/// The redirection whose operator is at `i`: it takes the last finished node
/// and the file named by the next word; without a node before it or a word
/// after it, it is a parse error.
pub open spec fn redirect(toks: Seq<SpecToken>, i: int, ast: Seq<SpecNode>, op: Operator) -> Built {
    if ast.len() == 0 {
        Err(Failure::Error(redirect_message(op)))
    } else if i + 1 >= toks.len() {
        Err(Failure::Error(redirect_message(op)))
    } else {
        match toks[i + 1] {
            SpecToken::Id(file) => Ok(
                (
                    i + 2,
                    ast.drop_last(),
                    SpecNode::Redirect { op, cmds: seq![ast.last()], file },
                ),
            ),
            _ => Err(Failure::Error(redirect_message(op))),
        }
    }
}


/// The members of an inline group `{ ... }` from position `i` on, `inl` being
/// the members found so far.
pub open spec fn group_loop(
    toks: Seq<SpecToken>,
    env: EnvView,
    i: int,
    ast: Seq<SpecNode>,
    inl: Seq<SpecNode>,
) -> Built
    decreases toks.len() - i, 2int,
{
    if i < 0 || i >= toks.len() {
        Err(Failure::Error("unmatched '{'"@))
    } else {
        match toks[i] {
            SpecToken::Id(_) => match command(toks, env, i, ast) {
                Err(f) => Err(f),
                Ok((j, a, n)) => if j <= i || j > toks.len() {
                    Err(Failure::Abort)
                } else {
                    group_loop(toks, env, j, a, inl.push(n))
                },
            },
            SpecToken::Semicolon => group_loop(toks, env, i + 1, ast, inl),
            SpecToken::LeftParen => match subshell(toks, i, ast) {
                Err(f) => Err(f),
                Ok((j, a, n)) => if j <= i || j > toks.len() {
                    Err(Failure::Abort)
                } else {
                    group_loop(toks, env, j, a, inl.push(n))
                },
            },
            SpecToken::RightParen => Err(Failure::Error("parse error near ')'"@)),
            SpecToken::LeftCurlyBracket => match group_loop(toks, env, i + 1, ast, seq![]) {
                Err(f) => Err(f),
                Ok((j, a, n)) => if j <= i || j > toks.len() {
                    Err(Failure::Abort)
                } else {
                    group_loop(toks, env, j, a, inl.push(n))
                },
            },
            SpecToken::RightCurlyBracket => Ok((i + 1, ast, SpecNode::InlineGroup { cmds: inl })),
            SpecToken::Pipe => if inl.len() == 0 {
                Err(Failure::Abort)
            } else {
                match pipe(toks, env, i, ast.push(inl.last())) {
                Err(f) => Err(f),
                Ok((j, a, n)) => if j <= i || j > toks.len() {
                    Err(Failure::Abort)
                } else {
                    group_loop(toks, env, j, a, inl.drop_last().push(n))
                },
            }
            },
            SpecToken::RedirectInput => if inl.len() == 0 {
                Err(Failure::Abort)
            } else {
                match redirect(toks, i, ast.push(inl.last()), Operator::RedirectInput) {
                Err(f) => Err(f),
                Ok((j, a, n)) => if j <= i || j > toks.len() {
                    Err(Failure::Abort)
                } else {
                    group_loop(toks, env, j, a, inl.drop_last().push(n))
                },
            }
            },
            _ => Err(Failure::Error("unmatched '{'"@)),
        }
    }
}

/// The pipeline whose first `|` is at `i`: its first member is the last
/// finished node.
pub open spec fn pipe(toks: Seq<SpecToken>, env: EnvView, i: int, ast: Seq<SpecNode>) -> Built
    decreases toks.len() - i, 1int,
{
    if ast.len() == 0 {
        Err(Failure::Error("parse error, invalid pipe"@))
    } else {
        pipe_loop(toks, env, i, ast.drop_last(), seq![ast.last()], 0)
    }
}

/// The end of a pipeline: as many `|` as gaps between its `cmds`.
pub open spec fn finish_pipe(i: int, ast: Seq<SpecNode>, cmds: Seq<SpecNode>, pipes: nat) -> Built {
    if pipes + 1 != cmds.len() {
        Err(Failure::Error("parse error, invalid pipe"@))
    } else {
        Ok((i, ast, SpecNode::Redirect { op: Operator::Pipe, cmds, file: Seq::<char>::empty() }))
    }
}


/// The members of a pipeline from position `i` on: `cmds` found so far, after
/// `pipes` bars.
pub open spec fn pipe_loop(
    toks: Seq<SpecToken>,
    env: EnvView,
    i: int,
    ast: Seq<SpecNode>,
    cmds: Seq<SpecNode>,
    pipes: nat,
) -> Built
    decreases toks.len() - i, 0int,
{
    if i < 0 || i >= toks.len() {
        finish_pipe(i, ast, cmds, pipes)
    } else {
        match toks[i] {
            SpecToken::Id(_) => match command(toks, env, i, ast) {
                Err(f) => Err(f),
                Ok((j, a, n)) => if j <= i || j > toks.len() {
                    Err(Failure::Abort)
                } else {
                    pipe_loop(toks, env, j, a, cmds.push(n), pipes)
                },
            },
            SpecToken::LeftParen => match subshell(toks, i, ast) {
                Err(f) => Err(f),
                Ok((j, a, n)) => if j <= i || j > toks.len() {
                    Err(Failure::Abort)
                } else {
                    pipe_loop(toks, env, j, a, cmds.push(n), pipes)
                },
            },
            SpecToken::RightParen => Err(Failure::Error("parse error near ')'"@)),
            SpecToken::LeftCurlyBracket => match group_loop(toks, env, i + 1, ast, seq![]) {
                Err(f) => Err(f),
                Ok((j, a, n)) => if j <= i || j > toks.len() {
                    Err(Failure::Abort)
                } else {
                    pipe_loop(toks, env, j, a, cmds.push(n), pipes)
                },
            },
            SpecToken::Pipe => pipe_loop(toks, env, i + 1, ast, cmds, pipes + 1),
            SpecToken::RedirectInput => match redirect(toks, i, ast, Operator::RedirectInput) {
                Err(f) => Err(f),
                Ok((j, a, n)) => if j <= i || j > toks.len() {
                    Err(Failure::Abort)
                } else {
                    pipe_loop(toks, env, j, a, cmds.push(n), pipes)
                },
            },
            _ => finish_pipe(i, ast, cmds, pipes),
        }
    }
}


/// The nodes of a command line from position `i` on, `ast` holding the nodes
/// finished so far.  Tokens that start no node end the line.
pub open spec fn top_from(toks: Seq<SpecToken>, env: EnvView, i: int, ast: Seq<SpecNode>) -> Result<
    Seq<SpecNode>,
    Failure,
>
    decreases toks.len() - i,
{
    if i < 0 || i >= toks.len() {
        Ok(ast)
    } else {
        match toks[i] {
            SpecToken::Id(_) => match command(toks, env, i, ast) {
                Err(f) => Err(f),
                Ok((j, a, n)) => if j <= i || j > toks.len() {
                    Err(Failure::Abort)
                } else {
                    top_from(toks, env, j, a.push(n))
                },
            },
            SpecToken::Semicolon => top_from(toks, env, i + 1, ast),
            SpecToken::LeftParen => match subshell(toks, i, ast) {
                Err(f) => Err(f),
                Ok((j, a, n)) => if j <= i || j > toks.len() {
                    Err(Failure::Abort)
                } else {
                    top_from(toks, env, j, a.push(n))
                },
            },
            SpecToken::RightParen => Err(Failure::Error("parse error near ')'"@)),
            SpecToken::LeftCurlyBracket => match group_loop(toks, env, i + 1, ast, seq![]) {
                Err(f) => Err(f),
                Ok((j, a, n)) => if j <= i || j > toks.len() {
                    Err(Failure::Abort)
                } else {
                    top_from(toks, env, j, a.push(n))
                },
            },
            SpecToken::RightCurlyBracket => Err(Failure::Error("parse error near '}'"@)),
            SpecToken::Pipe => match pipe(toks, env, i, ast) {
                Err(f) => Err(f),
                Ok((j, a, n)) => if j <= i || j > toks.len() {
                    Err(Failure::Abort)
                } else {
                    top_from(toks, env, j, a.push(n))
                },
            },
            SpecToken::RedirectInput => match redirect(toks, i, ast, Operator::RedirectInput) {
                Err(f) => Err(f),
                Ok((j, a, n)) => if j <= i || j > toks.len() {
                    Err(Failure::Abort)
                } else {
                    top_from(toks, env, j, a.push(n))
                },
            },
            SpecToken::RedirectOutput => match redirect(toks, i, ast, Operator::RedirectOutput) {
                Err(f) => Err(f),
                Ok((j, a, n)) => if j <= i || j > toks.len() {
                    Err(Failure::Abort)
                } else {
                    top_from(toks, env, j, a.push(n))
                },
            },
            _ => Ok(ast),
        }
    }
}

/// The syntax tree of a token sequence, `$NAME` expanded through `env`.
pub open spec fn spec_build_ast(toks: Seq<SpecToken>, env: EnvView) -> Result<Seq<SpecNode>, Failure> {
    top_from(toks, env, 0, seq![])
}


/// A failed parse, as a value: a syntax error with its message, or an input on
/// which the parser has no defined outcome.
pub enum ParseFailure {
    Error(String),
    Abort,
}

impl View for ParseFailure {
    type V = Failure;

    open spec fn view(&self) -> Failure {
        match self {
            ParseFailure::Error(e) => Failure::Error(e@),
            ParseFailure::Abort => Failure::Abort,
        }
    }
}

/// An exec outcome `r`, with the stack `after`, is the spec outcome `b`.
pub open spec fn built_as(r: Result<usize, ParseFailure>, after: Seq<Node>, b: Built) -> bool {
    match b {
        Ok((j, a, n)) => r matches Ok(k) && k == j && nodes_view(after) == a.push(n),
        Err(f) => r matches Err(e) && e@ == f,
    }
}

/// A successful outcome moves past position `i` and stays within the tokens.
pub open spec fn advances(r: Result<usize, ParseFailure>, i: int, len: int) -> bool {
    r matches Ok(j) ==> i < j <= len
}

pub open spec fn prepend_args(p: Seq<Seq<char>>, r: Result<(int, Seq<Seq<char>>), Failure>) -> Result<
    (int, Seq<Seq<char>>),
    Failure,
> {
    match r {
        Ok((j, rest)) => Ok((j, p + rest)),
        Err(f) => Err(f),
    }
}

/// Loop invariant of argument collection: the arguments found before `k`,
/// followed by those from `k` on, are the arguments from `start` on.
pub open spec fn args_so_far(
    toks: Seq<SpecToken>,
    env: EnvView,
    start: int,
    done: Seq<Seq<char>>,
    k: int,
) -> bool {
    command_args(toks, env, start) == prepend_args(done, command_args(toks, env, k))
}

proof fn lemma_args_step(
    toks: Seq<SpecToken>,
    env: EnvView,
    start: int,
    done: Seq<Seq<char>>,
    k: int,
    piece: Seq<Seq<char>>,
    k2: int,
)
    requires
        args_so_far(toks, env, start, done, k),
        command_args(toks, env, k) == prepend_args(piece, command_args(toks, env, k2)),
    ensures
        args_so_far(toks, env, start, done + piece, k2),
{
    match command_args(toks, env, k2) {
        Ok((j, rest)) => {
            assert(done + (piece + rest) == (done + piece) + rest);
        },
        Err(f) => {},
    }
}

proof fn lemma_strings_push(v: Seq<String>, s: String)
    ensures
        strings_view(v.push(s)) == strings_view(v).push(s@),
        strings_view(v.push(s)) == strings_view(v) + seq![s@],
{
    assert(strings_view(v.push(s)) =~= strings_view(v).push(s@));
    assert(strings_view(v).push(s@) =~= strings_view(v) + seq![s@]);
}

proof fn lemma_nodes_push(v: Seq<Node>, n: Node)
    ensures
        nodes_view(v.push(n)) == nodes_view(v).push(n@),
        nodes_view(v.push(n)).len() == v.len() + 1,
    decreases v.len(),
{
    assert(v.push(n).drop_last() =~= v);
    lemma_nodes_len(v);
}

pub proof fn lemma_nodes_len(v: Seq<Node>)
    ensures
        nodes_view(v).len() == v.len(),
    decreases v.len(),
{
    if v.len() > 0 {
        lemma_nodes_len(v.drop_last());
    }
}

pub proof fn lemma_nodes_index(v: Seq<Node>, k: int)
    requires
        0 <= k < v.len(),
    ensures
        nodes_view(v)[k] == v[k]@,
        nodes_view(v).len() == v.len(),
    decreases v.len(),
{
    lemma_nodes_len(v);
    if k < v.len() - 1 {
        lemma_nodes_index(v.drop_last(), k);
    }
}

/// Builds the command whose name `cmd` is the word at `i`, collecting its
/// arguments and expanding `$NAME` through `env`; pushes it onto `ast`.
fn build_command_node(
    cmd: &String,
    tokens: &[Token],
    env: &Environment,
    i: usize,
    ast: &mut Vec<Node>,
) -> (r: Result<usize, ParseFailure>)
    requires
        i < tokens.len(),
        tokens@[i as int]@ == SpecToken::Id(cmd@),
    ensures
        built_as(r, final(ast)@, command(tokens_view(tokens@), env@, i as int, nodes_view(old(ast)@))),
        advances(r, i as int, tokens.len() as int),
        r is Err ==> final(ast)@ == old(ast)@,
{
    let ghost toks = tokens_view(tokens@);
    assert(toks[i as int] == tokens@[i as int]@);
    let len = tokens.len();
    let mut args: Vec<String> = Vec::new();
    let mut k = i + 1;
    proof {
        assert(strings_view(args@) =~= Seq::<Seq<char>>::empty());
        assert(args_so_far(toks, env@, i + 1, strings_view(args@), k as int)) by {
            match command_args(toks, env@, i + 1) {
                Ok((j, rest)) => {
                    assert(Seq::<Seq<char>>::empty() + rest =~= rest);
                },
                Err(f) => {},
            }
        }
    }
    while k < len
        invariant
            toks == tokens_view(tokens@),
            toks[i as int] == SpecToken::Id(cmd@),
            len == tokens.len(),
            i < k <= len,
            args_so_far(toks, env@, i + 1, strings_view(args@), k as int),
            ast@ == old(ast)@,
        ensures
            i < k <= len,
            args_so_far(toks, env@, i + 1, strings_view(args@), k as int),
            command_args(toks, env@, k as int) == Ok::<(int, Seq<Seq<char>>), Failure>(
                (k as int, Seq::<Seq<char>>::empty()),
            ),
        decreases len - k,
    {
        let ghost done = strings_view(args@);
        let ghost k0 = k as int;
        assert(toks[k0] == tokens@[k0]@);
        match &tokens[k] {
            Token::Id(arg) => {
                proof {
                    assert(command_args(toks, env@, k0) == prepend_args(seq![arg@], command_args(toks, env@, k0 + 1)));
                    lemma_strings_push(args@, *arg);
                    lemma_args_step(toks, env@, i + 1, done, k0, seq![arg@], k0 + 1);
                }
                args.push(arg.clone());
                k = k + 1;
            },
            Token::Dollar => {
                k = k + 1;
                if k >= len {
                    let dollar = String::from_str("$");
                    proof {
                        reveal_strlit("$");
                        assert(dollar@ =~= seq!['$']);
                        assert(seq![seq!['$']] + Seq::<Seq<char>>::empty() =~= seq![seq!['$']]);
                        lemma_strings_push(args@, dollar);
                        lemma_args_step(toks, env@, i + 1, done, k0, seq![seq!['$']], k0 + 1);
                        assert(command_args(toks, env@, k as int) == Ok::<
                            (int, Seq<Seq<char>>),
                            Failure,
                        >((k as int, Seq::<Seq<char>>::empty())));
                        assert(done + seq![seq!['$']] =~= done.push(seq!['$']));
                    }
                    args.push(dollar);
                    break ;
                }
                assert(toks[k as int] == tokens@[k as int]@);
                match &tokens[k] {
                    Token::Id(key) => {
                        match env.lookup(key.as_str()) {
                            Ok(val) => {
                                proof {
                                    assert(toks[k0 + 1] == SpecToken::Id(key@));
                                    assert(env_lookup(env@, key@) == Ok::<Seq<char>, Seq<char>>(val@));
                                    assert(command_args(toks, env@, k0) == prepend_args(seq![val@], command_args(toks, env@, k0 + 2)));
                                    lemma_strings_push(args@, val);
                                    lemma_args_step(
                                        toks,
                                        env@,
                                        i + 1,
                                        done,
                                        k0,
                                        seq![val@],
                                        k0 + 2,
                                    );
                                }
                                args.push(val);
                            },
                            Err(e) => {
                                assert(command_args(toks, env@, k0) == Err::<
                                    (int, Seq<Seq<char>>),
                                    Failure,
                                >(Failure::Error(e@)));
                                assert(command_args(toks, env@, i + 1) == Err::<
                                    (int, Seq<Seq<char>>),
                                    Failure,
                                >(Failure::Error(e@)));
                                return Err(ParseFailure::Error(e));
                            },
                        }
                    },
                    _ => {
                        let e = String::from_str("invalid argument to $");
                        assert(command_args(toks, env@, k0) == Err::<
                            (int, Seq<Seq<char>>),
                            Failure,
                        >(Failure::Error(e@)));
                        assert(command_args(toks, env@, i + 1) == Err::<
                            (int, Seq<Seq<char>>),
                            Failure,
                        >(Failure::Error(e@)));
                        return Err(ParseFailure::Error(e));
                    },
                }
                k = k + 1;
            },
            _ => {
                break ;
            },
        }
    }
    let node = Node::Command { cmd: cmd.clone(), args };
    proof {
        assert(strings_view(args@) + Seq::<Seq<char>>::empty() =~= strings_view(args@));
        lemma_nodes_push(ast@, node);
    }
    ast.push(node);
    Ok(k)
}


/// Loop invariant of the subshell scan: the text written before `k`, followed
/// by what the scan writes from `k` on, is the text from `start` on.
pub open spec fn scanned_so_far(
    toks: Seq<SpecToken>,
    start: int,
    done: Seq<char>,
    k: int,
    depth: nat,
) -> bool {
    let (j, rest, d) = subshell_scan(toks, k, depth);
    subshell_scan(toks, start, 1) == (j, done + rest, d)
}

/// Writes a token back as text, onto `text`.
fn render_token(t: &Token, text: &mut String)
    ensures
        final(text)@ == old(text)@ + render(t@),
{
    match t {
        Token::Id(a) => {
            text.append(a.as_str());
            push_char(text, ' ');
        },
        Token::Semicolon => push_char(text, ';'),
        Token::Dollar => push_char(text, '$'),
        Token::LeftParen => push_char(text, '('),
        Token::RightParen => push_char(text, ')'),
        Token::LeftCurlyBracket => push_char(text, '{'),
        Token::RightCurlyBracket => push_char(text, '}'),
        Token::Pipe => push_char(text, '|'),
        Token::RedirectInput => push_char(text, '<'),
        Token::RedirectOutput => push_char(text, '>'),
        Token::RedirectOutputAppend => {
            push_char(text, '>');
            push_char(text, '>');
        },
        Token::Background => push_char(text, '&'),
        Token::And => {
            push_char(text, '&');
            push_char(text, '&');
        },
        Token::Or => {
            push_char(text, '|');
            push_char(text, '|');
        },
    }
    assert(final(text)@ =~= old(text)@ + render(t@));
}

/// Builds the subshell whose `(` is at `i`: its text is the tokens up to the
/// matching `)`, written back; pushes it onto `ast`.
fn build_subshell_node(tokens: &[Token], i: usize, ast: &mut Vec<Node>) -> (r: Result<
    usize,
    ParseFailure,
>)
    requires
        i < tokens.len(),
    ensures
        built_as(r, final(ast)@, subshell(tokens_view(tokens@), i as int, nodes_view(old(ast)@))),
        advances(r, i as int, tokens.len() as int),
{
    let ghost toks = tokens_view(tokens@);
    let mut command = String::new();
    let mut depth: usize = 1;
    let len = tokens.len();
    let mut k = i + 1;
    assert(scanned_so_far(toks, i + 1, command@, k as int, depth as nat)) by {
        let (j, rest, d) = subshell_scan(toks, k as int, depth as nat);
        assert(command@ + rest =~= rest);
    }
    while depth > 0 && k < len
        invariant
            toks == tokens_view(tokens@),
            len == tokens.len(),
            i < k <= len,
            depth <= k - i,
            scanned_so_far(toks, i + 1, command@, k as int, depth as nat),
        decreases len - k,
    {
        let ghost before = command@;
        let ghost d0 = depth as nat;
        assert(toks[k as int] == tokens@[k as int]@);
        render_token(&tokens[k], &mut command);
        match &tokens[k] {
            Token::LeftParen => {
                depth = depth + 1;
            },
            Token::RightParen => {
                depth = depth - 1;
            },
            _ => {},
        }
        proof {
            let (j, rest, d) = subshell_scan(toks, k + 1, depth as nat);
            assert(subshell_scan(toks, k as int, d0) == (j, render(toks[k as int]) + rest, d));
            assert(before + (render(toks[k as int]) + rest) =~= command@ + rest);
        }
        k = k + 1;
    }
    assert(command@ + Seq::<char>::empty() =~= command@);
    if k >= len && depth > 0 {
        return Err(ParseFailure::Error(String::from_str("unmatched '('")));
    }
    pop_char(&mut command);
    let node = Node::Subshell { cmd: command };
    proof {
        lemma_nodes_push(ast@, node);
    }
    ast.push(node);
    Ok(k)
}

/// Builds a redirection with operator `op` at `i`: the last node of `ast` is
/// redirected to or from the file named by the next word.
fn build_redirect_node(tokens: &[Token], i: usize, ast: &mut Vec<Node>, op: Operator) -> (r:
    Result<usize, ParseFailure>)
    requires
        i < tokens.len(),
        op == Operator::RedirectInput || op == Operator::RedirectOutput,
    ensures
        built_as(r, final(ast)@, redirect(tokens_view(tokens@), i as int, nodes_view(old(ast)@), op)),
        advances(r, i as int, tokens.len() as int),
{
    let ghost toks = tokens_view(tokens@);
    let len = tokens.len();
    let is_input = op == Operator::RedirectInput;
    let message = if is_input {
        String::from_str("parse error near '<'")
    } else {
        String::from_str("parse error near '>'")
    };
    let ghost old_ast = ast@;
    proof {
        lemma_nodes_len(old_ast);
        if old_ast.len() > 0 {
            lemma_nodes_index(old_ast, old_ast.len() - 1);
            assert(old_ast.drop_last().push(old_ast.last()) =~= old_ast);
            lemma_nodes_push(old_ast.drop_last(), old_ast.last());
        }
    }
    let command = match ast.pop() {
        Some(cmd) => cmd,
        None => {
            return Err(ParseFailure::Error(message));
        },
    };
    if i + 1 >= len {
        return Err(ParseFailure::Error(message));
    }
    assert(toks[i + 1] == tokens@[i + 1]@);
    match &tokens[i + 1] {
        Token::Id(file) => {
            let mut cmds: Vec<Node> = Vec::new();
            cmds.push(command);
            proof {
                lemma_nodes_push(Seq::<Node>::empty(), command);
                assert(Seq::<Node>::empty().push(command) =~= cmds@);
                assert(nodes_view(Seq::<Node>::empty()) =~= Seq::<SpecNode>::empty());
                assert(nodes_view(cmds@) =~= seq![command@]);
            }
            let node = Node::Redirect { op, cmds, file: file.clone() };
            proof {
                lemma_nodes_push(ast@, node);
                assert(ast@ == old_ast.drop_last());
                assert(nodes_view(old_ast).drop_last() == nodes_view(ast@));
                assert(nodes_view(old_ast).last() == command@);
                assert(node@ == SpecNode::Redirect { op, cmds: seq![command@], file: file@ });
            }
            ast.push(node);
            Ok(i + 2)
        },
        _ => Err(ParseFailure::Error(message)),
    }
}

/// Builds the input redirection whose `<` is at `i`.
fn build_redirect_input_node(tokens: &[Token], i: usize, ast: &mut Vec<Node>) -> (r: Result<
    usize,
    ParseFailure,
>)
    requires
        i < tokens.len(),
    ensures
        built_as(
            r,
            final(ast)@,
            redirect(tokens_view(tokens@), i as int, nodes_view(old(ast)@), Operator::RedirectInput),
        ),
        advances(r, i as int, tokens.len() as int),
{
    build_redirect_node(tokens, i, ast, Operator::RedirectInput)
}

/// Builds the output redirection whose `>` is at `i`.
fn build_redirect_output_node(tokens: &[Token], i: usize, ast: &mut Vec<Node>) -> (r: Result<
    usize,
    ParseFailure,
>)
    requires
        i < tokens.len(),
    ensures
        built_as(
            r,
            final(ast)@,
            redirect(tokens_view(tokens@), i as int, nodes_view(old(ast)@), Operator::RedirectOutput),
        ),
        advances(r, i as int, tokens.len() as int),
{
    build_redirect_node(tokens, i, ast, Operator::RedirectOutput)
}


/// Whether a node is a pipeline.
pub open spec fn is_pipe_node(n: Node) -> bool {
    n matches Node::Redirect { op, .. } && op == Operator::Pipe
}

/// Whether a node is a redirection to or from a file.
pub open spec fn is_file_redirect_node(n: Node) -> bool {
    n matches Node::Redirect { op, .. } && (op == Operator::RedirectInput || op
        == Operator::RedirectOutput)
}

/// The contract shared by the `pop_*` functions: the last node is removed and
/// handed back when `fits` holds of it; otherwise the message `msg` comes back.
pub open spec fn popped(
    old_ast: Seq<Node>,
    new_ast: Seq<Node>,
    r: Result<Node, String>,
    fits: bool,
    msg: Seq<char>,
) -> bool {
    if old_ast.len() > 0 && fits {
        r == Ok::<Node, String>(old_ast.last()) && new_ast == old_ast.drop_last()
    } else {
        r matches Err(e) && e@ == msg
    }
}

/// Takes the last node of `ast`, which must be a command.
fn pop_command(ast: &mut Vec<Node>) -> (r: Result<Node, String>)
    ensures
        popped(
            old(ast)@,
            final(ast)@,
            r,
            old(ast)@.len() > 0 && old(ast)@.last() is Command,
            "parse error, invalid command"@,
        ),
{
    match ast.pop() {
        Some(Node::Command { cmd, args }) => Ok(Node::Command { cmd, args }),
        _ => Err(String::from_str("parse error, invalid command")),
    }
}

/// Takes the last node of `ast`, which must be a subshell.
fn pop_subshell(ast: &mut Vec<Node>) -> (r: Result<Node, String>)
    ensures
        popped(
            old(ast)@,
            final(ast)@,
            r,
            old(ast)@.len() > 0 && old(ast)@.last() is Subshell,
            "parse error, invalid subshell"@,
        ),
{
    match ast.pop() {
        Some(Node::Subshell { cmd }) => Ok(Node::Subshell { cmd }),
        _ => Err(String::from_str("parse error, invalid subshell")),
    }
}

/// Takes the last node of `ast`, which must be an inline group.
fn pop_inline(ast: &mut Vec<Node>) -> (r: Result<Node, String>)
    ensures
        popped(
            old(ast)@,
            final(ast)@,
            r,
            old(ast)@.len() > 0 && old(ast)@.last() is InlineGroup,
            "parse error, invalid inline group"@,
        ),
{
    match ast.pop() {
        Some(Node::InlineGroup { cmds }) => Ok(Node::InlineGroup { cmds }),
        _ => Err(String::from_str("parse error, invalid inline group")),
    }
}

/// Takes the last node of `ast`, which must be a pipeline.
fn pop_pipe(ast: &mut Vec<Node>) -> (r: Result<Node, String>)
    ensures
        popped(
            old(ast)@,
            final(ast)@,
            r,
            old(ast)@.len() > 0 && is_pipe_node(old(ast)@.last()),
            "parse error, invalid pipe"@,
        ),
{
    match ast.pop() {
        Some(Node::Redirect { op: Operator::Pipe, cmds, file }) => Ok(
            Node::Redirect { op: Operator::Pipe, cmds, file },
        ),
        _ => Err(String::from_str("parse error, invalid pipe")),
    }
}

/// Takes the last node of `ast`, which must be a redirection to or from a file.
fn pop_redirect(ast: &mut Vec<Node>) -> (r: Result<Node, String>)
    ensures
        popped(
            old(ast)@,
            final(ast)@,
            r,
            old(ast)@.len() > 0 && is_file_redirect_node(old(ast)@.last()),
            "parse error, invalid pipe"@,
        ),
{
    match ast.pop() {
        Some(Node::Redirect { op: Operator::RedirectInput, cmds, file }) => Ok(
            Node::Redirect { op: Operator::RedirectInput, cmds, file },
        ),
        Some(Node::Redirect { op: Operator::RedirectOutput, cmds, file }) => Ok(
            Node::Redirect { op: Operator::RedirectOutput, cmds, file },
        ),
        _ => Err(String::from_str("parse error, invalid pipe")),
    }
}

/// After a builder succeeded on `ast` with outcome `(j, a, n)`, the last node is
/// the one built and the rest is `a`.
proof fn lemma_built_top(ast: Seq<Node>, a: Seq<SpecNode>, n: SpecNode)
    requires
        nodes_view(ast) == a.push(n),
    ensures
        ast.len() > 0,
        ast.last()@ == n,
        nodes_view(ast.drop_last()) == a,
{
    lemma_nodes_len(ast);
    assert(nodes_view(ast).last() == n);
    assert(nodes_view(ast).drop_last() =~= a);
}


/// Builds the inline group whose `{` is at `i` and pushes it onto `ast`.
fn build_inline_node(tokens: &[Token], env: &Environment, i: usize, ast: &mut Vec<Node>) -> (r:
    Result<usize, ParseFailure>)
    requires
        i < tokens.len(),
    ensures
        built_as(
            r,
            final(ast)@,
            group_loop(tokens_view(tokens@), env@, i + 1, nodes_view(old(ast)@), seq![]),
        ),
        advances(r, i as int, tokens.len() as int),
    decreases tokens.len() - i, 3int,
{
    let mut inline_nodes: Vec<Node> = Vec::new();
    assert(nodes_view(inline_nodes@) =~= Seq::<SpecNode>::empty());
    build_inline_node_recurse(tokens, env, i, ast, &mut inline_nodes)
}

/// Builds the inline group whose `{` is at `i`, `inline_nodes` holding the
/// members found so far, and pushes it onto `ast`.
#[verifier::spinoff_prover]
#[verifier::rlimit(50)]
fn build_inline_node_recurse(
    tokens: &[Token],
    env: &Environment,
    i: usize,
    ast: &mut Vec<Node>,
    inline_nodes: &mut Vec<Node>,
) -> (r: Result<usize, ParseFailure>)
    requires
        i < tokens.len(),
    ensures
        built_as(
            r,
            final(ast)@,
            group_loop(
                tokens_view(tokens@),
                env@,
                i + 1,
                nodes_view(old(ast)@),
                nodes_view(old(inline_nodes)@),
            ),
        ),
        advances(r, i as int, tokens.len() as int),
    decreases tokens.len() - i, 2int,
{
    let ghost toks = tokens_view(tokens@);
    let ghost goal = group_loop(
        toks,
        env@,
        i + 1,
        nodes_view(ast@),
        nodes_view(inline_nodes@),
    );
    let len = tokens.len();
    let mut k = i + 1;
    while k < len
        invariant
            toks == tokens_view(tokens@),
            len == tokens.len(),
            i < k <= len,
            goal == group_loop(toks, env@, k as int, nodes_view(ast@), nodes_view(inline_nodes@)),
            goal == group_loop(
                tokens_view(tokens@),
                env@,
                i + 1,
                nodes_view(old(ast)@),
                nodes_view(old(inline_nodes)@),
            ),
        decreases len - k,
    {
        let ghost a0 = nodes_view(ast@);
        let ghost inl0 = nodes_view(inline_nodes@);
        assert(toks[k as int] == tokens@[k as int]@);
        match &tokens[k] {
            Token::Id(cmd) => {
                let ghost b = command(toks, env@, k as int, a0);
                let r = build_command_node(cmd, tokens, env, k, ast);
                let j = match r {
                    Ok(j) => j,
                    Err(e) => {
                        assert(b == Err::<(int, Seq<SpecNode>, SpecNode), Failure>(e@));
                        assert(goal == Err::<(int, Seq<SpecNode>, SpecNode), Failure>(e@));
                        return Err(e);
                    },
                };
                proof {
                    lemma_built_top(ast@, b->Ok_0.1, b->Ok_0.2);
                }
                let command = match pop_command(ast) {
                    Ok(c) => c,
                    Err(e) => {
                        return Err(ParseFailure::Error(e));
                    },
                };
                proof {
                    lemma_nodes_push(inline_nodes@, command);
                }
                inline_nodes.push(command);
                k = j;
                assert(goal == group_loop(toks, env@, k as int, nodes_view(ast@), nodes_view(inline_nodes@)));
            },
            Token::Semicolon => {
                k = k + 1;
            },
            Token::LeftParen => {
                let ghost b = subshell(toks, k as int, a0);
                let r = build_subshell_node(tokens, k, ast);
                let j = match r {
                    Ok(j) => j,
                    Err(e) => {
                        assert(b == Err::<(int, Seq<SpecNode>, SpecNode), Failure>(e@));
                        assert(goal == Err::<(int, Seq<SpecNode>, SpecNode), Failure>(e@));
                        return Err(e);
                    },
                };
                proof {
                    lemma_built_top(ast@, b->Ok_0.1, b->Ok_0.2);
                }
                let subshell_node = match pop_subshell(ast) {
                    Ok(c) => c,
                    Err(e) => {
                        return Err(ParseFailure::Error(e));
                    },
                };
                proof {
                    lemma_nodes_push(inline_nodes@, subshell_node);
                }
                inline_nodes.push(subshell_node);
                k = j;
                assert(goal == group_loop(toks, env@, k as int, nodes_view(ast@), nodes_view(inline_nodes@)));
            },
            Token::RightParen => {
                return Err(ParseFailure::Error(String::from_str("parse error near ')'")));
            },
            Token::LeftCurlyBracket => {
                let mut nested: Vec<Node> = Vec::new();
                assert(nodes_view(nested@) =~= Seq::<SpecNode>::empty());
                let ghost b = group_loop(toks, env@, k + 1, a0, seq![]);
                proof {
                    lemma_group_shape(toks, env@, k + 1, a0, seq![]);
                }
                let r = build_inline_node_recurse(tokens, env, k, ast, &mut nested);
                let j = match r {
                    Ok(j) => j,
                    Err(e) => {
                        assert(b == Err::<(int, Seq<SpecNode>, SpecNode), Failure>(e@));
                        assert(goal == Err::<(int, Seq<SpecNode>, SpecNode), Failure>(e@));
                        return Err(e);
                    },
                };
                proof {
                    lemma_built_top(ast@, b->Ok_0.1, b->Ok_0.2);
                }
                let group = match pop_inline(ast) {
                    Ok(c) => c,
                    Err(e) => {
                        return Err(ParseFailure::Error(e));
                    },
                };
                proof {
                    lemma_nodes_push(inline_nodes@, group);
                }
                inline_nodes.push(group);
                k = j;
                assert(goal == group_loop(toks, env@, k as int, nodes_view(ast@), nodes_view(inline_nodes@)));
            },
            Token::RightCurlyBracket => {
                let mut cmds: Vec<Node> = Vec::new();
                std::mem::swap(&mut cmds, inline_nodes);
                let node = Node::InlineGroup { cmds };
                proof {
                    lemma_nodes_push(ast@, node);
                }
                ast.push(node);
                return Ok(k + 1);
            },
            Token::Pipe => {
                let ghost inl_seq = inline_nodes@;
                let last = match inline_nodes.pop() {
                    Some(n) => n,
                    None => {
                        proof {
                            lemma_nodes_len(inl_seq);
                        }
                        return Err(ParseFailure::Abort);
                    },
                };
                proof {
                    lemma_nodes_len(inl_seq);
                    lemma_nodes_index(inl_seq, inl_seq.len() - 1);
                    lemma_nodes_push(ast@, last);
                    assert(nodes_view(inl_seq).drop_last() =~= nodes_view(inl_seq.drop_last()));
                }
                ast.push(last);
                let ghost b = pipe(toks, env@, k as int, a0.push(inl0.last()));
                proof {
                    lemma_pipe_shape(toks, env@, k as int, a0.push(inl0.last()));
                }
                let r = build_pipe_node(tokens, env, k, ast);
                let j = match r {
                    Ok(j) => j,
                    Err(e) => {
                        assert(b == Err::<(int, Seq<SpecNode>, SpecNode), Failure>(e@));
                        assert(goal == Err::<(int, Seq<SpecNode>, SpecNode), Failure>(e@));
                        return Err(e);
                    },
                };
                proof {
                    lemma_built_top(ast@, b->Ok_0.1, b->Ok_0.2);
                }
                let pipe_node = match pop_pipe(ast) {
                    Ok(c) => c,
                    Err(e) => {
                        return Err(ParseFailure::Error(e));
                    },
                };
                proof {
                    lemma_nodes_push(inline_nodes@, pipe_node);
                }
                inline_nodes.push(pipe_node);
                k = j;
                assert(goal == group_loop(toks, env@, k as int, nodes_view(ast@), nodes_view(inline_nodes@)));
            },
            Token::RedirectInput => {
                let ghost inl_seq = inline_nodes@;
                let last = match inline_nodes.pop() {
                    Some(n) => n,
                    None => {
                        proof {
                            lemma_nodes_len(inl_seq);
                        }
                        return Err(ParseFailure::Abort);
                    },
                };
                proof {
                    lemma_nodes_len(inl_seq);
                    lemma_nodes_index(inl_seq, inl_seq.len() - 1);
                    lemma_nodes_push(ast@, last);
                    assert(nodes_view(inl_seq).drop_last() =~= nodes_view(inl_seq.drop_last()));
                }
                ast.push(last);
                let ghost b = redirect(
                    toks,
                    k as int,
                    a0.push(inl0.last()),
                    Operator::RedirectInput,
                );
                let r = build_redirect_input_node(tokens, k, ast);
                let j = match r {
                    Ok(j) => j,
                    Err(e) => {
                        assert(b == Err::<(int, Seq<SpecNode>, SpecNode), Failure>(e@));
                        assert(goal == Err::<(int, Seq<SpecNode>, SpecNode), Failure>(e@));
                        return Err(e);
                    },
                };
                proof {
                    lemma_built_top(ast@, b->Ok_0.1, b->Ok_0.2);
                }
                let redirect_node = match pop_redirect(ast) {
                    Ok(c) => c,
                    Err(e) => {
                        return Err(ParseFailure::Error(e));
                    },
                };
                proof {
                    lemma_nodes_push(inline_nodes@, redirect_node);
                }
                inline_nodes.push(redirect_node);
                k = j;
                assert(goal == group_loop(toks, env@, k as int, nodes_view(ast@), nodes_view(inline_nodes@)));
            },
            _ => {
                return Err(ParseFailure::Error(String::from_str("unmatched '{'")));
            },
        }
    }
    Err(ParseFailure::Error(String::from_str("unmatched '{'")))
}

/// Builds the pipeline whose first `|` is at `i`, taking the last node of `ast`
/// as its first member, and pushes it onto `ast`.
#[verifier::spinoff_prover]
#[verifier::rlimit(50)]
fn build_pipe_node(tokens: &[Token], env: &Environment, i: usize, ast: &mut Vec<Node>) -> (r:
    Result<usize, ParseFailure>)
    requires
        i < tokens.len(),
        tokens@[i as int]@ == SpecToken::Pipe,
    ensures
        built_as(r, final(ast)@, pipe(tokens_view(tokens@), env@, i as int, nodes_view(old(ast)@))),
        advances(r, i as int, tokens.len() as int),
    decreases tokens.len() - i, 1int,
{
    let ghost toks = tokens_view(tokens@);
    let ghost old_ast = ast@;
    let len = tokens.len();
    let mut commands: Vec<Node> = Vec::new();
    let mut num_pipes: usize = 0;
    proof {
        lemma_nodes_len(old_ast);
        if old_ast.len() > 0 {
            lemma_nodes_index(old_ast, old_ast.len() - 1);
            lemma_nodes_push(Seq::<Node>::empty(), old_ast.last());
            assert(nodes_view(Seq::<Node>::empty()) =~= Seq::<SpecNode>::empty());
            assert(Seq::<Node>::empty().push(old_ast.last()) =~= seq![old_ast.last()]);
        }
    }
    match ast.pop() {
        Some(command) => commands.push(command),
        None => {
            return Err(ParseFailure::Error(String::from_str("parse error, invalid pipe")));
        },
    }
    let ghost goal = pipe(toks, env@, i as int, nodes_view(old_ast));
    assert(nodes_view(old_ast).drop_last() =~= nodes_view(ast@));
    assert(nodes_view(commands@) =~= seq![nodes_view(old_ast).last()]);
    assert(goal == pipe_loop(toks, env@, i as int, nodes_view(ast@), nodes_view(commands@), 0));
    let mut k = i;
    assert(toks[i as int] == tokens@[i as int]@);
    while k < len
        invariant
            toks == tokens_view(tokens@),
            len == tokens.len(),
            i < len,
            i <= k <= len,
            k == i ==> toks[k as int] == SpecToken::Pipe,
            old_ast == old(ast)@,
            goal == pipe(toks, env@, i as int, nodes_view(old_ast)),
            num_pipes <= k - i,
            commands.len() >= 1,
            goal == pipe_loop(
                toks,
                env@,
                k as int,
                nodes_view(ast@),
                nodes_view(commands@),
                num_pipes as nat,
            ),
        ensures
            i < k <= len,
            num_pipes <= len,
            commands.len() >= 1,
            goal == finish_pipe(k as int, nodes_view(ast@), nodes_view(commands@), num_pipes as nat),
        decreases len - k,
    {
        let ghost a0 = nodes_view(ast@);
        assert(toks[k as int] == tokens@[k as int]@);
        match &tokens[k] {
            Token::Id(cmd) => {
                let ghost b = command(toks, env@, k as int, a0);
                let r = build_command_node(cmd, tokens, env, k, ast);
                let j = match r {
                    Ok(j) => j,
                    Err(e) => {
                        assert(b == Err::<(int, Seq<SpecNode>, SpecNode), Failure>(e@));
                        assert(goal == Err::<(int, Seq<SpecNode>, SpecNode), Failure>(e@));
                        return Err(e);
                    },
                };
                proof {
                    lemma_built_top(ast@, b->Ok_0.1, b->Ok_0.2);
                }
                let command = match pop_command(ast) {
                    Ok(c) => c,
                    Err(e) => {
                        return Err(ParseFailure::Error(e));
                    },
                };
                proof {
                    lemma_nodes_push(commands@, command);
                }
                commands.push(command);
                k = j;
            },
            Token::LeftParen => {
                let ghost b = subshell(toks, k as int, a0);
                let r = build_subshell_node(tokens, k, ast);
                let j = match r {
                    Ok(j) => j,
                    Err(e) => {
                        assert(b == Err::<(int, Seq<SpecNode>, SpecNode), Failure>(e@));
                        assert(goal == Err::<(int, Seq<SpecNode>, SpecNode), Failure>(e@));
                        return Err(e);
                    },
                };
                proof {
                    lemma_built_top(ast@, b->Ok_0.1, b->Ok_0.2);
                }
                let subshell_node = match pop_subshell(ast) {
                    Ok(c) => c,
                    Err(e) => {
                        return Err(ParseFailure::Error(e));
                    },
                };
                proof {
                    lemma_nodes_push(commands@, subshell_node);
                }
                commands.push(subshell_node);
                k = j;
            },
            Token::RightParen => {
                return Err(ParseFailure::Error(String::from_str("parse error near ')'")));
            },
            Token::LeftCurlyBracket => {
                let ghost b = group_loop(toks, env@, k + 1, a0, seq![]);
                proof {
                    lemma_group_shape(toks, env@, k + 1, a0, seq![]);
                }
                let r = build_inline_node(tokens, env, k, ast);
                let j = match r {
                    Ok(j) => j,
                    Err(e) => {
                        assert(b == Err::<(int, Seq<SpecNode>, SpecNode), Failure>(e@));
                        assert(goal == Err::<(int, Seq<SpecNode>, SpecNode), Failure>(e@));
                        return Err(e);
                    },
                };
                proof {
                    lemma_built_top(ast@, b->Ok_0.1, b->Ok_0.2);
                }
                let group = match pop_inline(ast) {
                    Ok(c) => c,
                    Err(e) => {
                        return Err(ParseFailure::Error(e));
                    },
                };
                proof {
                    lemma_nodes_push(commands@, group);
                }
                commands.push(group);
                k = j;
            },
            Token::RightCurlyBracket => {
                assert(k > i);
                break ;
            },
            Token::Pipe => {
                k = k + 1;
                num_pipes = num_pipes + 1;
            },
            Token::RedirectInput => {
                let ghost b = redirect(toks, k as int, a0, Operator::RedirectInput);
                let r = build_redirect_input_node(tokens, k, ast);
                let j = match r {
                    Ok(j) => j,
                    Err(e) => {
                        assert(b == Err::<(int, Seq<SpecNode>, SpecNode), Failure>(e@));
                        assert(goal == Err::<(int, Seq<SpecNode>, SpecNode), Failure>(e@));
                        return Err(e);
                    },
                };
                proof {
                    lemma_built_top(ast@, b->Ok_0.1, b->Ok_0.2);
                }
                let redirect_node = match pop_redirect(ast) {
                    Ok(c) => c,
                    Err(e) => {
                        return Err(ParseFailure::Error(e));
                    },
                };
                proof {
                    lemma_nodes_push(commands@, redirect_node);
                }
                commands.push(redirect_node);
                k = j;
            },
            _ => {
                assert(k > i);
                break ;
            },
        }
    }
    proof {
        lemma_nodes_len(commands@);
    }
    if num_pipes != commands.len() - 1 {
        return Err(ParseFailure::Error(String::from_str("parse error, invalid pipe")));
    }
    let node = Node::Redirect { op: Operator::Pipe, cmds: commands, file: String::new() };
    proof {
        lemma_nodes_push(ast@, node);
    }
    ast.push(node);
    Ok(k)
}


proof fn lemma_group_shape(
    toks: Seq<SpecToken>,
    env: EnvView,
    i: int,
    ast: Seq<SpecNode>,
    inl: Seq<SpecNode>,
)
    ensures
        group_loop(toks, env, i, ast, inl) matches Ok((_, _, n)) ==> n is InlineGroup,
    decreases toks.len() - i,
{
    if 0 <= i < toks.len() {
        let b = match toks[i] {
            SpecToken::Id(_) => command(toks, env, i, ast),
            SpecToken::LeftParen => subshell(toks, i, ast),
            SpecToken::LeftCurlyBracket => group_loop(toks, env, i + 1, ast, seq![]),
            SpecToken::Pipe => if inl.len() > 0 {
                pipe(toks, env, i, ast.push(inl.last()))
            } else {
                Err(Failure::Abort)
            },
            SpecToken::RedirectInput => if inl.len() > 0 {
                redirect(toks, i, ast.push(inl.last()), Operator::RedirectInput)
            } else {
                Err(Failure::Abort)
            },
            _ => Err(Failure::Abort),
        };
        let members = match toks[i] {
            SpecToken::Pipe => inl.drop_last(),
            SpecToken::RedirectInput => inl.drop_last(),
            _ => inl,
        };
        if let Ok((j, a, n)) = b {
            if i < j <= toks.len() {
                lemma_group_shape(toks, env, j, a, members.push(n));
            }
        }
        if toks[i] is Semicolon {
            lemma_group_shape(toks, env, i + 1, ast, inl);
        }
    }
}

proof fn lemma_pipe_loop_shape(
    toks: Seq<SpecToken>,
    env: EnvView,
    i: int,
    ast: Seq<SpecNode>,
    cmds: Seq<SpecNode>,
    pipes: nat,
)
    ensures
        pipe_loop(toks, env, i, ast, cmds, pipes) matches Ok((_, _, n)) ==> (n matches SpecNode::Redirect { op, .. } && op == Operator::Pipe),
    decreases toks.len() - i,
{
    if 0 <= i < toks.len() {
        let b = match toks[i] {
            SpecToken::Id(_) => command(toks, env, i, ast),
            SpecToken::LeftParen => subshell(toks, i, ast),
            SpecToken::LeftCurlyBracket => group_loop(toks, env, i + 1, ast, seq![]),
            SpecToken::RedirectInput => redirect(toks, i, ast, Operator::RedirectInput),
            _ => Err(Failure::Abort),
        };
        if let Ok((j, a, n)) = b {
            if i < j <= toks.len() {
                lemma_pipe_loop_shape(toks, env, j, a, cmds.push(n), pipes);
            }
        }
        if toks[i] is Pipe {
            lemma_pipe_loop_shape(toks, env, i + 1, ast, cmds, pipes + 1);
        }
    }
}

proof fn lemma_pipe_shape(toks: Seq<SpecToken>, env: EnvView, i: int, ast: Seq<SpecNode>)
    ensures
        pipe(toks, env, i, ast) matches Ok((_, _, n)) ==> (n matches SpecNode::Redirect { op, .. } && op == Operator::Pipe),
{
    if ast.len() > 0 {
        lemma_pipe_loop_shape(toks, env, i, ast.drop_last(), seq![ast.last()], 0);
    }
}


/// The syntax tree of a token sequence, or why it has none.
fn build_ast_checked(tokens: &[Token], env: &Environment) -> (r: Result<Vec<Node>, ParseFailure>)
    ensures
        match r {
            Ok(ns) => spec_build_ast(tokens_view(tokens@), env@) == Ok::<Seq<SpecNode>, Failure>(
                nodes_view(ns@),
            ),
            Err(e) => spec_build_ast(tokens_view(tokens@), env@) == Err::<Seq<SpecNode>, Failure>(
                e@,
            ),
        },
{
    let ghost toks = tokens_view(tokens@);
    let ghost goal = spec_build_ast(toks, env@);
    let len = tokens.len();
    let mut i: usize = 0;
    let mut ast: Vec<Node> = Vec::new();
    assert(nodes_view(ast@) =~= Seq::<SpecNode>::empty());
    while i < len
        invariant
            toks == tokens_view(tokens@),
            goal == spec_build_ast(tokens_view(tokens@), env@),
            len == tokens.len(),
            i <= len,
            goal == top_from(toks, env@, i as int, nodes_view(ast@)),
        ensures
            goal == Ok::<Seq<SpecNode>, Failure>(nodes_view(ast@)),
        decreases len - i,
    {
        let ghost a0 = nodes_view(ast@);
        assert(toks[i as int] == tokens@[i as int]@);
        match &tokens[i] {
            Token::Id(cmd) => {
                let ghost b = command(toks, env@, i as int, a0);
                match build_command_node(cmd, tokens, env, i, &mut ast) {
                    Ok(j) => {
                        i = j;
                    },
                    Err(e) => {
                        assert(b == Err::<(int, Seq<SpecNode>, SpecNode), Failure>(e@));
                        return Err(e);
                    },
                }
            },
            Token::Semicolon => {
                i = i + 1;
            },
            Token::LeftParen => {
                let ghost b = subshell(toks, i as int, a0);
                match build_subshell_node(tokens, i, &mut ast) {
                    Ok(j) => {
                        i = j;
                    },
                    Err(e) => {
                        assert(b == Err::<(int, Seq<SpecNode>, SpecNode), Failure>(e@));
                        return Err(e);
                    },
                }
            },
            Token::RightParen => {
                return Err(ParseFailure::Error(String::from_str("parse error near ')'")));
            },
            Token::LeftCurlyBracket => {
                let ghost b = group_loop(toks, env@, i + 1, a0, seq![]);
                match build_inline_node(tokens, env, i, &mut ast) {
                    Ok(j) => {
                        i = j;
                    },
                    Err(e) => {
                        assert(b == Err::<(int, Seq<SpecNode>, SpecNode), Failure>(e@));
                        return Err(e);
                    },
                }
            },
            Token::RightCurlyBracket => {
                return Err(ParseFailure::Error(String::from_str("parse error near '}'")));
            },
            Token::Pipe => {
                let ghost b = pipe(toks, env@, i as int, a0);
                match build_pipe_node(tokens, env, i, &mut ast) {
                    Ok(j) => {
                        i = j;
                    },
                    Err(e) => {
                        assert(b == Err::<(int, Seq<SpecNode>, SpecNode), Failure>(e@));
                        return Err(e);
                    },
                }
            },
            Token::RedirectInput => {
                let ghost b = redirect(toks, i as int, a0, Operator::RedirectInput);
                match build_redirect_input_node(tokens, i, &mut ast) {
                    Ok(j) => {
                        i = j;
                    },
                    Err(e) => {
                        assert(b == Err::<(int, Seq<SpecNode>, SpecNode), Failure>(e@));
                        return Err(e);
                    },
                }
            },
            Token::RedirectOutput => {
                let ghost b = redirect(toks, i as int, a0, Operator::RedirectOutput);
                match build_redirect_output_node(tokens, i, &mut ast) {
                    Ok(j) => {
                        i = j;
                    },
                    Err(e) => {
                        assert(b == Err::<(int, Seq<SpecNode>, SpecNode), Failure>(e@));
                        return Err(e);
                    },
                }
            },
            _ => {
                break ;
            },
        }
    }
    Ok(ast)
}

/// Builds the syntax tree of a command line from its tokens, expanding `$NAME`
/// through `env`: commands with their arguments, `( ... )` subshells, `{ ... }`
/// inline groups, pipelines and `<` / `>` redirections; `;` separates nodes.
/// Fails with the message of the first syntax error.  The inputs on which the
/// tree has no defined outcome (`|` or `<` first in a group)
/// are left out.
pub fn build_ast(tokens: &[Token], env: &Environment) -> (r: Result<Vec<Node>, String>)
    requires
        spec_build_ast(tokens_view(tokens@), env@) != Err::<Seq<SpecNode>, Failure>(Failure::Abort),
    ensures
        match r {
            Ok(ns) => spec_build_ast(tokens_view(tokens@), env@) == Ok::<Seq<SpecNode>, Failure>(
                nodes_view(ns@),
            ),
            Err(e) => spec_build_ast(tokens_view(tokens@), env@) == Err::<Seq<SpecNode>, Failure>(
                Failure::Error(e@),
            ),
        },
{
    match build_ast_checked(tokens, env) {
        Ok(ns) => Ok(ns),
        Err(ParseFailure::Error(e)) => Err(e),
        Err(ParseFailure::Abort) => Err(String::new()),
    }
}

/// [`build_ast`] on every token sequence: `None` exactly for the inputs on which
/// the tree has no defined outcome.
pub fn try_build_ast(tokens: &[Token], env: &Environment) -> (r: Option<Result<Vec<Node>, String>>)
    ensures
        match r {
            None => spec_build_ast(tokens_view(tokens@), env@) == Err::<Seq<SpecNode>, Failure>(
                Failure::Abort,
            ),
            Some(Ok(ns)) => spec_build_ast(tokens_view(tokens@), env@) == Ok::<
                Seq<SpecNode>,
                Failure,
            >(nodes_view(ns@)),
            Some(Err(e)) => spec_build_ast(tokens_view(tokens@), env@) == Err::<
                Seq<SpecNode>,
                Failure,
            >(Failure::Error(e@)),
        },
{
    match build_ast_checked(tokens, env) {
        Ok(ns) => Some(Ok(ns)),
        Err(ParseFailure::Error(e)) => Some(Err(e)),
        Err(ParseFailure::Abort) => None,
    }
}

/// The names that `$NAME` refers to from position `i` on, in order: each word
/// that follows a `$`.
pub open spec fn referenced_from(toks: Seq<SpecToken>, i: int) -> Seq<Seq<char>>
    decreases toks.len() - i,
{
    if i < 0 || i + 1 >= toks.len() {
        seq![]
    } else {
        let here = match (toks[i], toks[i + 1]) {
            (SpecToken::Dollar, SpecToken::Id(key)) => seq![key],
            _ => seq![],
        };
        here + referenced_from(toks, i + 1)
    }
}

/// The names of the variables that `$NAME` may refer to in `tokens`: the word
/// after each `$`, in order.  Building the tree looks up no other name (see
/// `law_build_reads_only_referenced`).
pub fn referenced_variables(tokens: &[Token]) -> (keys: Vec<String>)
    ensures
        keys@.map_values(|k: String| k@) == referenced_from(tokens_view(tokens@), 0),
{
    let ghost toks = tokens_view(tokens@);
    let mut keys: Vec<String> = Vec::new();
    let mut i: usize = 0;
    while i < tokens.len() && i + 1 < tokens.len()
        invariant
            toks == tokens_view(tokens@),
            i <= tokens.len(),
            referenced_from(toks, 0) == keys@.map_values(|k: String| k@) + referenced_from(toks, i as int),
        decreases tokens.len() - i,
    {
        let ghost before = keys@;
        if let Token::Dollar = &tokens[i] {
            if let Token::Id(key) = &tokens[i + 1] {
                keys.push(key.clone());
            }
        }
        proof {
            assert(toks[i as int] == tokens@[i as int]@);
            assert(toks[i + 1] == tokens@[i + 1]@);
            let here = match (toks[i as int], toks[i + 1]) {
                (SpecToken::Dollar, SpecToken::Id(key)) => seq![key],
                _ => seq![],
            };
            assert(keys@.map_values(|k: String| k@) =~= before.map_values(|k: String| k@) + here);
            assert(referenced_from(toks, i as int) == here + referenced_from(toks, i + 1));
            assert(before.map_values(|k: String| k@) + (here + referenced_from(toks, i + 1))
                =~= (before.map_values(|k: String| k@) + here) + referenced_from(toks, i + 1));
        }
        i = i + 1;
    }
    assert(referenced_from(toks, i as int) =~= Seq::<Seq<char>>::empty());
    assert(keys@.map_values(|k: String| k@) + Seq::<Seq<char>>::empty() =~= keys@.map_values(|k: String| k@));
    keys
}

} // verus!
