use vstd::prelude::*;

use crate::env::env_lookup;
use crate::lexer::{
    alphabetic_flags, lex_from, lemma_lex_skip, law_space_splits_lexing, scan_word, spec_lex,
    SpecToken,
};
use crate::parser::{
    command, command_args, group_loop, render, subshell_scan, lemma_nodes_wf_index, lemma_nodes_wf_push, node_wf, nodes_wf, pipe,
    pipe_loop, redirect, referenced_from, spec_build_ast, subshell, top_from, Built, EnvView, Failure, Operator,
    SpecNode,
};
use crate::plan::{pipe_processes, spec_next_action, SpecLineAction, SpecStep, no_abort, plan_defined, plan_from, plan_node, redirect_group_steps, stops, to_process};

verus! {

/// The outcome `b` of a builder: on success, what is left below the node and
/// the node itself are well-formed.
pub open spec fn built_wf(b: Built) -> bool {
    b matches Ok((_, a, n)) ==> nodes_wf(a) && node_wf(n)
}

proof fn lemma_redirect_wf(toks: Seq<SpecToken>, i: int, ast: Seq<SpecNode>, op: Operator)
    requires
        nodes_wf(ast),
        op == Operator::RedirectInput || op == Operator::RedirectOutput,
    ensures
        built_wf(redirect(toks, i, ast, op)),
{
    if ast.len() > 0 {
        assert(ast.drop_last().push(ast.last()) =~= ast);
        lemma_nodes_wf_push(ast.drop_last(), ast.last());
        lemma_nodes_wf_push(Seq::<SpecNode>::empty(), ast.last());
        assert(Seq::<SpecNode>::empty().push(ast.last()) =~= seq![ast.last()]);
    }
}

proof fn lemma_group_wf(
    toks: Seq<SpecToken>,
    env: EnvView,
    i: int,
    ast: Seq<SpecNode>,
    inl: Seq<SpecNode>,
)
    requires
        nodes_wf(ast),
        nodes_wf(inl),
    ensures
        built_wf(group_loop(toks, env, i, ast, inl)),
    decreases toks.len() - i, 2int,
{
    if 0 <= i < toks.len() {
        let members = match toks[i] {
            SpecToken::Pipe => inl.drop_last(),
            SpecToken::RedirectInput => inl.drop_last(),
            _ => inl,
        };
        let b = match toks[i] {
            SpecToken::Id(_) => command(toks, env, i, ast),
            SpecToken::LeftParen => subshell(toks, i, ast),
            SpecToken::LeftCurlyBracket => group_loop(toks, env, i + 1, ast, seq![]),
            SpecToken::Pipe => if inl.len() > 0 {
                pipe(toks, env, i, ast.push(inl.last()))
            } else {
                Err(Failure::Abort)
            },
            SpecToken::RedirectInput => if inl.len() > 0 {
                redirect(toks, i, ast.push(inl.last()), Operator::RedirectInput)
            } else {
                Err(Failure::Abort)
            },
            _ => Err(Failure::Abort),
        };
        if inl.len() > 0 {
            assert(inl.drop_last().push(inl.last()) =~= inl);
            lemma_nodes_wf_push(inl.drop_last(), inl.last());
            lemma_nodes_wf_push(ast, inl.last());
        }
        match toks[i] {
            SpecToken::LeftCurlyBracket => {
                lemma_group_wf(toks, env, i + 1, ast, seq![]);
            },
            SpecToken::Pipe => {
                if inl.len() > 0 {
                    lemma_pipe_wf(toks, env, i, ast.push(inl.last()));
                }
            },
            SpecToken::RedirectInput => {
                if inl.len() > 0 {
                    lemma_redirect_wf(toks, i, ast.push(inl.last()), Operator::RedirectInput);
                }
            },
            SpecToken::Semicolon => {
                lemma_group_wf(toks, env, i + 1, ast, inl);
            },
            SpecToken::RightCurlyBracket => {},
            _ => {},
        }
        if let Ok((j, a, n)) = b {
            if i < j <= toks.len() {
                lemma_nodes_wf_push(members, n);
                lemma_group_wf(toks, env, j, a, members.push(n));
            }
        }
    }
}

proof fn lemma_pipe_wf(toks: Seq<SpecToken>, env: EnvView, i: int, ast: Seq<SpecNode>)
    requires
        nodes_wf(ast),
        0 <= i < toks.len(),
        toks[i] is Pipe,
    ensures
        built_wf(pipe(toks, env, i, ast)),
    decreases toks.len() - i, 1int,
{
    if ast.len() > 0 {
        assert(ast.drop_last().push(ast.last()) =~= ast);
        lemma_nodes_wf_push(ast.drop_last(), ast.last());
        lemma_nodes_wf_push(Seq::<SpecNode>::empty(), ast.last());
        assert(Seq::<SpecNode>::empty().push(ast.last()) =~= seq![ast.last()]);
        lemma_pipe_loop_wf(toks, env, i, ast.drop_last(), seq![ast.last()], 0);
    }
}

proof fn lemma_pipe_loop_wf(
    toks: Seq<SpecToken>,
    env: EnvView,
    i: int,
    ast: Seq<SpecNode>,
    cmds: Seq<SpecNode>,
    pipes: nat,
)
    requires
        nodes_wf(ast),
        nodes_wf(cmds),
        pipes >= 1 || (0 <= i < toks.len() && toks[i] is Pipe),
    ensures
        built_wf(pipe_loop(toks, env, i, ast, cmds, pipes)),
    decreases toks.len() - i, 0int,
{
    if 0 <= i < toks.len() {
        let b = match toks[i] {
            SpecToken::Id(_) => command(toks, env, i, ast),
            SpecToken::LeftParen => subshell(toks, i, ast),
            SpecToken::LeftCurlyBracket => group_loop(toks, env, i + 1, ast, seq![]),
            SpecToken::RedirectInput => redirect(toks, i, ast, Operator::RedirectInput),
            _ => Err(Failure::Abort),
        };
        match toks[i] {
            SpecToken::LeftCurlyBracket => {
                lemma_group_wf(toks, env, i + 1, ast, seq![]);
            },
            SpecToken::RedirectInput => {
                lemma_redirect_wf(toks, i, ast, Operator::RedirectInput);
            },
            SpecToken::Pipe => {
                lemma_pipe_loop_wf(toks, env, i + 1, ast, cmds, pipes + 1);
            },
            _ => {},
        }
        if let Ok((j, a, n)) = b {
            if i < j <= toks.len() {
                lemma_nodes_wf_push(cmds, n);
                lemma_pipe_loop_wf(toks, env, j, a, cmds.push(n), pipes);
            }
        }
    }
}

proof fn lemma_top_wf(toks: Seq<SpecToken>, env: EnvView, i: int, ast: Seq<SpecNode>)
    requires
        nodes_wf(ast),
    ensures
        top_from(toks, env, i, ast) matches Ok(ns) ==> nodes_wf(ns),
    decreases toks.len() - i,
{
    if 0 <= i < toks.len() {
        let b = match toks[i] {
            SpecToken::Id(_) => command(toks, env, i, ast),
            SpecToken::LeftParen => subshell(toks, i, ast),
            SpecToken::LeftCurlyBracket => group_loop(toks, env, i + 1, ast, seq![]),
            SpecToken::Pipe => pipe(toks, env, i, ast),
            SpecToken::RedirectInput => redirect(toks, i, ast, Operator::RedirectInput),
            SpecToken::RedirectOutput => redirect(toks, i, ast, Operator::RedirectOutput),
            _ => Err(Failure::Abort),
        };
        match toks[i] {
            SpecToken::LeftCurlyBracket => {
                lemma_group_wf(toks, env, i + 1, ast, seq![]);
            },
            SpecToken::Pipe => {
                lemma_pipe_wf(toks, env, i, ast);
            },
            SpecToken::RedirectInput => {
                lemma_redirect_wf(toks, i, ast, Operator::RedirectInput);
            },
            SpecToken::RedirectOutput => {
                lemma_redirect_wf(toks, i, ast, Operator::RedirectOutput);
            },
            SpecToken::Semicolon => {
                lemma_top_wf(toks, env, i + 1, ast);
            },
            _ => {},
        }
        if let Ok((j, a, n)) = b {
            if i < j <= toks.len() {
                lemma_nodes_wf_push(a, n);
                lemma_top_wf(toks, env, j, a.push(n));
            }
        }
    }
}

/// Every tree that the parser builds is well-formed: each redirection to or
/// from a file holds exactly one command, each pipeline at least two members,
/// and no node is a binary node.
pub proof fn law_parsed_trees_are_well_formed(toks: Seq<SpecToken>, env: EnvView)
    ensures
        spec_build_ast(toks, env) matches Ok(ns) ==> nodes_wf(ns),
{
    lemma_top_wf(toks, env, 0, seq![]);
}

proof fn lemma_redirect_group_no_abort(ns: Seq<SpecNode>, file: Seq<char>, record: bool)
    ensures
        no_abort(redirect_group_steps(ns, file, record)),
    decreases ns.len(),
{
    if ns.len() > 0 {
        lemma_redirect_group_no_abort(ns.drop_first(), file, record);
        let r = redirect_group_steps(ns, file, record);
        match to_process(ns[0]) {
            Some(p) => {
                let rest = redirect_group_steps(ns.drop_first(), file, record);
                assert forall|k: int| 0 <= k < r.len() implies !(#[trigger] r[k] is Abort) by {
                    if k > 0 {
                        assert(r[k] == rest[k - 1]);
                    }
                }
            },
            None => {},
        }
    }
}

proof fn lemma_plan_node_no_abort(n: SpecNode, top: bool)
    requires
        node_wf(n),
    ensures
        no_abort(plan_node(n, top)),
    decreases n, 1int,
{
    match n {
        SpecNode::InlineGroup { cmds } => {
            lemma_plan_from_no_abort(cmds, 0, false);
        },
        SpecNode::Redirect { op, cmds, file } => {
            if op == Operator::RedirectInput {
                if let SpecNode::InlineGroup { cmds: inner } = cmds[0] {
                    lemma_redirect_group_no_abort(inner, file, top);
                }
            }
        },
        _ => {},
    }
}

proof fn lemma_plan_from_no_abort(ns: Seq<SpecNode>, i: int, top: bool)
    requires
        nodes_wf(ns),
    ensures
        no_abort(plan_from(ns, i, top)),
    decreases ns, ns.len() - i,
{
    if 0 <= i < ns.len() {
        lemma_nodes_wf_index(ns, i);
        assert(decreases_to!(ns => ns[i]));
        lemma_plan_node_no_abort(ns[i], top);
        lemma_plan_from_no_abort(ns, i + 1, top);
        let p = plan_node(ns[i], top);
        let rest = plan_from(ns, i + 1, top);
        if !stops(p) {
            assert forall|k: int| 0 <= k < (p + rest).len() implies !(#[trigger] (p + rest)[k] is Abort) by {
                if k >= p.len() {
                    assert((p + rest)[k] == rest[k - p.len()]);
                } else {
                    assert((p + rest)[k] == p[k]);
                }
            }
        }
    }
}

/// A well-formed tree can always be run: planning it never meets an input
/// redirection without a command.
pub proof fn law_well_formed_trees_can_run(ns: Seq<SpecNode>)
    requires
        nodes_wf(ns),
    ensures
        plan_defined(ns),
{
    lemma_plan_from_no_abort(ns, 0, true);
}

/// Every command line that parses can be run: the steps of the tree that
/// `build_ast` returns are always defined.
pub proof fn law_parsed_lines_can_run(toks: Seq<SpecToken>, env: EnvView)
    ensures
        spec_build_ast(toks, env) matches Ok(ns) ==> plan_defined(ns),
{
    law_parsed_trees_are_well_formed(toks, env);
    if let Ok(ns) = spec_build_ast(toks, env) {
        law_well_formed_trees_can_run(ns);
    }
}

/// A lookup finds what was last defined for its name: after `name` is defined
/// as `value`, `$name` expands to `value`.
pub proof fn law_lookup_finds_last_definition(
    env: Seq<(Seq<char>, Result<Seq<char>, Seq<char>>)>,
    name: Seq<char>,
    value: Result<Seq<char>, Seq<char>>,
)
    ensures
        env_lookup(env.push((name, value)), name) == value,
{
    assert(env.push((name, value)).last() == (name, value));
}

/// Defining one name leaves what every other name expands to unchanged.
pub proof fn law_definition_leaves_other_names(
    env: Seq<(Seq<char>, Result<Seq<char>, Seq<char>>)>,
    name: Seq<char>,
    value: Result<Seq<char>, Seq<char>>,
    other: Seq<char>,
)
    requires
        other != name,
    ensures
        env_lookup(env.push((name, value)), other) == env_lookup(env, other),
{
    assert(env.push((name, value)).drop_last() =~= env);
}

/// The name that `$NAME` at position `i` of `toks` refers to, if a `$` stands
/// there followed by a word.
pub open spec fn dollar_key_at(toks: Seq<SpecToken>, i: int) -> Option<Seq<char>> {
    if 0 <= i && i + 1 < toks.len() {
        match (toks[i], toks[i + 1]) {
            (SpecToken::Dollar, SpecToken::Id(key)) => Some(key),
            _ => None,
        }
    } else {
        None
    }
}

/// Two environments give the same expansion to every `$NAME` of `toks`.
pub open spec fn agree_on_references(toks: Seq<SpecToken>, e1: EnvView, e2: EnvView) -> bool {
    forall|i: int| #[trigger]
        dollar_key_at(toks, i) is Some ==> env_lookup(e1, dollar_key_at(toks, i)->Some_0)
            == env_lookup(e2, dollar_key_at(toks, i)->Some_0)
}

proof fn lemma_args_same(toks: Seq<SpecToken>, e1: EnvView, e2: EnvView, i: int)
    requires
        agree_on_references(toks, e1, e2),
    ensures
        command_args(toks, e1, i) == command_args(toks, e2, i),
    decreases toks.len() - i,
{
    if 0 <= i < toks.len() {
        match toks[i] {
            SpecToken::Id(_) => {
                lemma_args_same(toks, e1, e2, i + 1);
            },
            SpecToken::Dollar => {
                if i + 1 < toks.len() {
                    if let SpecToken::Id(key) = toks[i + 1] {
                        assert(dollar_key_at(toks, i) == Some(key));
                        assert(dollar_key_at(toks, i)->Some_0 == key);
                        lemma_args_same(toks, e1, e2, i + 2);
                    }
                }
            },
            _ => {},
        }
    }
}

proof fn lemma_command_same(
    toks: Seq<SpecToken>,
    e1: EnvView,
    e2: EnvView,
    i: int,
    ast: Seq<SpecNode>,
)
    requires
        agree_on_references(toks, e1, e2),
    ensures
        command(toks, e1, i, ast) == command(toks, e2, i, ast),
{
    lemma_args_same(toks, e1, e2, i + 1);
}

proof fn lemma_group_same(
    toks: Seq<SpecToken>,
    e1: EnvView,
    e2: EnvView,
    i: int,
    ast: Seq<SpecNode>,
    inl: Seq<SpecNode>,
)
    requires
        agree_on_references(toks, e1, e2),
    ensures
        group_loop(toks, e1, i, ast, inl) == group_loop(toks, e2, i, ast, inl),
    decreases toks.len() - i, 2int,
{
    if 0 <= i < toks.len() {
        let n_toks = toks.len();
        match toks[i] {
            SpecToken::Id(_) => {
                lemma_command_same(toks, e1, e2, i, ast);
                if let Ok((j, a, n)) = command(toks, e1, i, ast) {
                    if i < j <= n_toks {
                        lemma_group_same(toks, e1, e2, j, a, inl.push(n));
                    }
                }
            },
            SpecToken::Semicolon => {
                lemma_group_same(toks, e1, e2, i + 1, ast, inl);
            },
            SpecToken::LeftParen => {
                if let Ok((j, a, n)) = subshell(toks, i, ast) {
                    if i < j <= n_toks {
                        lemma_group_same(toks, e1, e2, j, a, inl.push(n));
                    }
                }
            },
            SpecToken::LeftCurlyBracket => {
                lemma_group_same(toks, e1, e2, i + 1, ast, seq![]);
                if let Ok((j, a, n)) = group_loop(toks, e1, i + 1, ast, seq![]) {
                    if i < j <= n_toks {
                        lemma_group_same(toks, e1, e2, j, a, inl.push(n));
                    }
                }
            },
            SpecToken::Pipe => {
                if inl.len() > 0 {
                    lemma_pipe_same(toks, e1, e2, i, ast.push(inl.last()));
                    if let Ok((j, a, n)) = pipe(toks, e1, i, ast.push(inl.last())) {
                        if i < j <= n_toks {
                            lemma_group_same(toks, e1, e2, j, a, inl.drop_last().push(n));
                        }
                    }
                }
            },
            SpecToken::RedirectInput => {
                if inl.len() > 0 {
                    if let Ok((j, a, n)) = redirect(
                        toks,
                        i,
                        ast.push(inl.last()),
                        Operator::RedirectInput,
                    ) {
                        if i < j <= n_toks {
                            lemma_group_same(toks, e1, e2, j, a, inl.drop_last().push(n));
                        }
                    }
                }
            },
            _ => {},
        }
    }
}

proof fn lemma_pipe_same(toks: Seq<SpecToken>, e1: EnvView, e2: EnvView, i: int, ast: Seq<SpecNode>)
    requires
        agree_on_references(toks, e1, e2),
    ensures
        pipe(toks, e1, i, ast) == pipe(toks, e2, i, ast),
    decreases toks.len() - i, 1int,
{
    if ast.len() > 0 {
        lemma_pipe_loop_same(toks, e1, e2, i, ast.drop_last(), seq![ast.last()], 0);
    }
}

proof fn lemma_pipe_loop_same(
    toks: Seq<SpecToken>,
    e1: EnvView,
    e2: EnvView,
    i: int,
    ast: Seq<SpecNode>,
    cmds: Seq<SpecNode>,
    pipes: nat,
)
    requires
        agree_on_references(toks, e1, e2),
    ensures
        pipe_loop(toks, e1, i, ast, cmds, pipes) == pipe_loop(toks, e2, i, ast, cmds, pipes),
    decreases toks.len() - i, 0int,
{
    if 0 <= i < toks.len() {
        let n_toks = toks.len();
        match toks[i] {
            SpecToken::Id(_) => {
                lemma_command_same(toks, e1, e2, i, ast);
                if let Ok((j, a, n)) = command(toks, e1, i, ast) {
                    if i < j <= n_toks {
                        lemma_pipe_loop_same(toks, e1, e2, j, a, cmds.push(n), pipes);
                    }
                }
            },
            SpecToken::LeftParen => {
                if let Ok((j, a, n)) = subshell(toks, i, ast) {
                    if i < j <= n_toks {
                        lemma_pipe_loop_same(toks, e1, e2, j, a, cmds.push(n), pipes);
                    }
                }
            },
            SpecToken::LeftCurlyBracket => {
                lemma_group_same(toks, e1, e2, i + 1, ast, seq![]);
                if let Ok((j, a, n)) = group_loop(toks, e1, i + 1, ast, seq![]) {
                    if i < j <= n_toks {
                        lemma_pipe_loop_same(toks, e1, e2, j, a, cmds.push(n), pipes);
                    }
                }
            },
            SpecToken::Pipe => {
                lemma_pipe_loop_same(toks, e1, e2, i + 1, ast, cmds, pipes + 1);
            },
            SpecToken::RedirectInput => {
                if let Ok((j, a, n)) = redirect(toks, i, ast, Operator::RedirectInput) {
                    if i < j <= n_toks {
                        lemma_pipe_loop_same(toks, e1, e2, j, a, cmds.push(n), pipes);
                    }
                }
            },
            _ => {},
        }
    }
}

proof fn lemma_top_same(toks: Seq<SpecToken>, e1: EnvView, e2: EnvView, i: int, ast: Seq<SpecNode>)
    requires
        agree_on_references(toks, e1, e2),
    ensures
        top_from(toks, e1, i, ast) == top_from(toks, e2, i, ast),
    decreases toks.len() - i,
{
    if 0 <= i < toks.len() {
        let n_toks = toks.len();
        let b = match toks[i] {
            SpecToken::Id(_) => command(toks, e1, i, ast),
            SpecToken::LeftParen => subshell(toks, i, ast),
            SpecToken::LeftCurlyBracket => group_loop(toks, e1, i + 1, ast, seq![]),
            SpecToken::Pipe => pipe(toks, e1, i, ast),
            SpecToken::RedirectInput => redirect(toks, i, ast, Operator::RedirectInput),
            SpecToken::RedirectOutput => redirect(toks, i, ast, Operator::RedirectOutput),
            _ => Err(Failure::Abort),
        };
        match toks[i] {
            SpecToken::Id(_) => {
                lemma_command_same(toks, e1, e2, i, ast);
            },
            SpecToken::LeftCurlyBracket => {
                lemma_group_same(toks, e1, e2, i + 1, ast, seq![]);
            },
            SpecToken::Pipe => {
                lemma_pipe_same(toks, e1, e2, i, ast);
            },
            SpecToken::Semicolon => {
                lemma_top_same(toks, e1, e2, i + 1, ast);
            },
            _ => {},
        }
        if let Ok((j, a, n)) = b {
            if i < j <= n_toks {
                lemma_top_same(toks, e1, e2, j, a.push(n));
            }
        }
    }
}

proof fn lemma_reference_listed(toks: Seq<SpecToken>, j: int, i: int)
    requires
        0 <= j <= i,
        dollar_key_at(toks, i) is Some,
    ensures
        referenced_from(toks, j).contains(dollar_key_at(toks, i)->Some_0),
    decreases i - j,
{
    let key = dollar_key_at(toks, i)->Some_0;
    let r = referenced_from(toks, j);
    if j == i {
        assert(r[0] == key);
    } else {
        lemma_reference_listed(toks, j + 1, i);
        let rest = referenced_from(toks, j + 1);
        let idx = choose|x: int| 0 <= x < rest.len() && rest[x] == key;
        assert(r[r.len() - rest.len() + idx] == key);
    }
}

/// Building the tree reads of the environment only the names that
/// [`referenced_variables`](crate::parser::referenced_variables) lists: two
/// environments that expand those names alike give the same outcome.
pub proof fn law_build_reads_only_referenced(toks: Seq<SpecToken>, e1: EnvView, e2: EnvView)
    requires
        forall|k: Seq<char>|
            #[trigger] referenced_from(toks, 0).contains(k) ==> env_lookup(e1, k) == env_lookup(e2, k),
    ensures
        spec_build_ast(toks, e1) == spec_build_ast(toks, e2),
{
    assert forall|i: int| #[trigger] dollar_key_at(toks, i) is Some implies env_lookup(
        e1,
        dollar_key_at(toks, i)->Some_0,
    ) == env_lookup(e2, dollar_key_at(toks, i)->Some_0) by {
        lemma_reference_listed(toks, 0, i);
    }
    lemma_top_same(toks, e1, e2, 0, seq![]);
}

/// A failure stops the line: whatever steps remain, the next action after a
/// failed step is to stop with its message, so no later step runs.
pub proof fn law_failure_stops_the_line(steps: Seq<SpecStep>, done: int, e: Seq<char>)
    ensures
        spec_next_action(steps, done, Err(e)) == SpecLineAction::Stop(e),
{
}

/// Steps run one after another in order: after `done` steps that succeeded,
/// the next action concerns step `done`, and after the last one the line is
/// finished.
pub proof fn law_steps_run_in_order(steps: Seq<SpecStep>, done: int)
    requires
        0 <= done,
    ensures
        done >= steps.len() ==> spec_next_action(steps, done, Ok(())) == SpecLineAction::Finish,
        done < steps.len() && (steps[done] is Run || steps[done] is RunPipe
            || steps[done] is RunRedirectInput) ==> spec_next_action(steps, done, Ok(()))
            == SpecLineAction::Run(done),
        done < steps.len() && steps[done] is Unsupported ==> spec_next_action(steps, done, Ok(()))
            == SpecLineAction::Report(done),
{
}

/// The text that tokens are written back as, one after the other.
pub open spec fn render_all(ts: Seq<SpecToken>) -> Seq<char>
    decreases ts.len(),
{
    if ts.len() == 0 {
        Seq::empty()
    } else {
        render(ts[0]) + render_all(ts.drop_first())
    }
}

/// A plain word: an ASCII letter, then ASCII letters and digits.
pub open spec fn plain_word(w: Seq<char>) -> bool {
    &&& w.len() > 0
    &&& ('A' <= w[0] <= 'Z' || 'a' <= w[0] <= 'z')
    &&& forall|m: int|
        0 <= m < w.len() ==> ('A' <= #[trigger] w[m] <= 'Z' || 'a' <= w[m] <= 'z' || '0' <= w[m]
            <= '9')
}

/// A token that a subshell's text writes back exactly: a plain word, `;`, `$`,
/// `(` or `)`.
pub open spec fn plain_token(t: SpecToken) -> bool {
    match t {
        SpecToken::Id(w) => plain_word(w),
        SpecToken::Semicolon => true,
        SpecToken::Dollar => true,
        SpecToken::LeftParen => true,
        SpecToken::RightParen => true,
        _ => false,
    }
}

/// The number of `(` minus the number of `)` among the first `n` tokens.
pub open spec fn paren_depth(ts: Seq<SpecToken>, n: int) -> int
    decreases n,
{
    if n <= 0 {
        0
    } else {
        paren_depth(ts, n - 1) + match ts[n - 1] {
            SpecToken::LeftParen => 1int,
            SpecToken::RightParen => -1int,
            _ => 0int,
        }
    }
}

/// The parentheses of `ts` are balanced: no prefix closes more than it opens,
/// and the whole opens as many as it closes.
pub open spec fn balanced(ts: Seq<SpecToken>) -> bool {
    &&& forall|n: int| 0 <= n <= ts.len() ==> #[trigger] paren_depth(ts, n) >= 0
    &&& paren_depth(ts, ts.len() as int) == 0
}

proof fn lemma_scan_word_plain(w: Seq<char>, alpha: Seq<bool>, i: int)
    requires
        plain_word(w),
        alpha.len() == w.len(),
        0 <= i <= w.len(),
    ensures
        scan_word(w, alpha, i) == (w.skip(i), w.len() as int),
    decreases w.len() - i,
{
    if i < w.len() {
        assert('A' <= w[i] <= 'Z' || 'a' <= w[i] <= 'z' || '0' <= w[i] <= '9');
        lemma_scan_word_plain(w, alpha, i + 1);
        assert(seq![w[i]] + w.skip(i + 1) =~= w.skip(i));
    } else {
        assert(w.skip(i) =~= Seq::<char>::empty());
    }
}

/// A token that a subshell's text writes back so that it lexes again: a plain
/// word, or any token other than a word.
pub open spec fn renders_back(t: SpecToken) -> bool {
    match t {
        SpecToken::Id(w) => plain_word(w),
        _ => true,
    }
}

/// Whether the text of `b` written right after the one-character operator
/// `a` (`|`, `>` or `&`) would join it into a two-character operator.
pub open spec fn merges(a: SpecToken, b: SpecToken) -> bool {
    (a is Pipe || a is RedirectOutput || a is Background) && render(b).len() > 0 && render(b)[0]
        == render(a)[0]
}

/// No two neighbouring tokens of `ts` are written back into one operator
/// (such as `|` then `|`, which is `||`).
pub open spec fn no_merges(ts: Seq<SpecToken>) -> bool {
    forall|k: int| 0 <= k < ts.len() - 1 ==> !merges(#[trigger] ts[k], ts[k + 1])
}

proof fn lemma_lex_rendered(ts: Seq<SpecToken>)
    requires
        forall|k: int| 0 <= k < ts.len() ==> renders_back(#[trigger] ts[k]),
        no_merges(ts),
    ensures
        spec_lex(render_all(ts)) == Ok::<Seq<SpecToken>, Seq<char>>(ts),
    decreases ts.len(),
{
    if ts.len() == 0 {
        assert(spec_lex(Seq::<char>::empty()) == Ok::<Seq<SpecToken>, Seq<char>>(seq![]));
        assert(ts =~= Seq::<SpecToken>::empty());
    } else {
        let rest = ts.drop_first();
        assert forall|k: int| 0 <= k < rest.len() implies renders_back(#[trigger] rest[k]) by {
            assert(rest[k] == ts[k + 1]);
        }
        assert forall|k: int| 0 <= k < rest.len() - 1 implies !merges(#[trigger] rest[k], rest[k + 1]) by {
            assert(rest[k] == ts[k + 1]);
            assert(rest[k + 1] == ts[k + 2]);
            assert(!merges(ts[k + 1], ts[k + 2]));
        }
        lemma_lex_rendered(rest);
        let r = render_all(rest);
        assert(renders_back(ts[0]));
        assert(seq![ts[0]] + rest =~= ts);
        if rest.len() > 0 {
            assert(renders_back(rest[0]));
            if let SpecToken::Id(w) = rest[0] {
                assert(w.len() > 0);
            }
            assert(render(rest[0]).len() > 0);
            assert(r[0] == render(rest[0])[0]);
            assert(!merges(ts[0], ts[1]));
        }
        match ts[0] {
            SpecToken::Id(w) => {
                assert(render(ts[0]) + r =~= w + seq![' '] + r);
                assert(w.last() == w[w.len() - 1]);
                assert forall|m: int| 0 <= m < w.len() implies w[m] != '\'' && w[m] != '"' by {
                    assert('A' <= w[m] <= 'Z' || 'a' <= w[m] <= 'z' || '0' <= w[m] <= '9');
                }
                law_space_splits_lexing(w, r);
                let alpha = alphabetic_flags(w);
                lemma_scan_word_plain(w, alpha, 0);
                assert(w.skip(0) =~= w);
                assert(lex_from(w, alpha, w.len() as int) == Ok::<Seq<SpecToken>, Seq<char>>(seq![]));
                assert(seq![SpecToken::Id(w)] + Seq::<SpecToken>::empty() =~= seq![SpecToken::Id(w)]);
                assert(spec_lex(w) == Ok::<Seq<SpecToken>, Seq<char>>(seq![SpecToken::Id(w)]));
            },
            SpecToken::Or | SpecToken::And | SpecToken::RedirectOutputAppend => {
                let s = render(ts[0]) + r;
                let alpha = alphabetic_flags(s);
                assert(s[0] == render(ts[0])[0]);
                assert(s[1] == render(ts[0])[1]);
                lemma_lex_skip(s, alpha, 2, 0);
                assert(s.skip(2) =~= r);
                assert(alpha.skip(2) =~= alphabetic_flags(r));
                assert(lex_from(s, alpha, 2) == spec_lex(r));
            },
            _ => {
                let s = render(ts[0]) + r;
                let alpha = alphabetic_flags(s);
                assert(s[0] == render(ts[0])[0]);
                if rest.len() > 0 {
                    assert(s[1] == r[0]);
                }
                lemma_lex_skip(s, alpha, 1, 0);
                assert(s.skip(1) =~= r);
                assert(alpha.skip(1) =~= alphabetic_flags(r));
                assert(lex_from(s, alpha, 1) == spec_lex(r));
            },
        }
    }
}

proof fn lemma_render_all_skip(ts: Seq<SpecToken>, k: int)
    requires
        0 <= k < ts.len(),
    ensures
        render_all(ts.skip(k)) == render(ts[k]) + render_all(ts.skip(k + 1)),
{
    assert(ts.skip(k).drop_first() =~= ts.skip(k + 1));
    assert(ts.skip(k)[0] == ts[k]);
}

proof fn lemma_scan_balanced(toks: Seq<SpecToken>, inner: Seq<SpecToken>, k: int)
    requires
        balanced(inner),
        toks.len() >= inner.len() + 2,
        toks[0] == SpecToken::LeftParen,
        toks[inner.len() + 1int] == SpecToken::RightParen,
        forall|m: int| 0 <= m < inner.len() ==> toks[m + 1] == inner[m],
        0 <= k <= inner.len(),
    ensures
        subshell_scan(toks, k + 1, (1 + paren_depth(inner, k)) as nat) == (
            inner.len() + 2int,
            render_all(inner.skip(k)) + seq![')'],
            0nat,
        ),
    decreases inner.len() - k,
{
    assert(paren_depth(inner, k) >= 0);
    if k == inner.len() {
        assert(paren_depth(inner, k) == 0);
        assert(subshell_scan(toks, k + 2, 0) == (k + 2, Seq::<char>::empty(), 0nat));
        assert(inner.skip(k) =~= Seq::<SpecToken>::empty());
        assert(Seq::<char>::empty() + seq![')'] =~= seq![')']);
        assert(seq![')'] + Seq::<char>::empty() =~= seq![')']);
    } else {
        assert(toks[k + 1] == inner[k]);
        assert(paren_depth(inner, k + 1) >= 0);
        let d = (1 + paren_depth(inner, k)) as nat;
        let d2 = match toks[k + 1] {
            SpecToken::LeftParen => d + 1,
            SpecToken::RightParen => (d - 1) as nat,
            _ => d,
        };
        assert(d2 == (1 + paren_depth(inner, k + 1)) as nat);
        lemma_scan_balanced(toks, inner, k + 1);
        lemma_render_all_skip(inner, k);
        assert(render(inner[k]) + (render_all(inner.skip(k + 1)) + seq![')']) =~= (render(inner[k])
            + render_all(inner.skip(k + 1))) + seq![')']);
    }
}

/// A subshell's text lexes back to the tokens between its parentheses: for a
/// balanced body of plain words, `;`, `$`, `(` and `)`, the subshell ends after
/// its matching `)`, and the text handed to `rshell -c` is the body written
/// back, whose tokens are the body again.
pub proof fn law_subshell_text_relexes(
    toks: Seq<SpecToken>,
    inner: Seq<SpecToken>,
    ast: Seq<SpecNode>,
)
    requires
        forall|k: int| 0 <= k < inner.len() ==> plain_token(#[trigger] inner[k]),
        balanced(inner),
        toks.len() >= inner.len() + 2,
        toks[0] == SpecToken::LeftParen,
        toks[inner.len() + 1int] == SpecToken::RightParen,
        forall|m: int| 0 <= m < inner.len() ==> toks[m + 1] == inner[m],
    ensures
        subshell(toks, 0, ast) == Ok::<(int, Seq<SpecNode>, SpecNode), Failure>(
            (inner.len() + 2int, ast, SpecNode::Subshell { cmd: render_all(inner) }),
        ),
        spec_lex(render_all(inner)) == Ok::<Seq<SpecToken>, Seq<char>>(inner),
{
    assert forall|k: int| 0 <= k < inner.len() implies renders_back(#[trigger] inner[k]) by {
        assert(plain_token(inner[k]));
    }
    assert forall|k: int| 0 <= k < inner.len() - 1 implies !merges(#[trigger] inner[k], inner[k + 1]) by {
        assert(plain_token(inner[k]));
    }
    law_subshell_text_relexes_with_operators(toks, inner, ast);
}

/// A subshell's text lexes back to the tokens between its parentheses for any
/// balanced body of plain words and operators (`|`, `||`, `&&`, `;`, `<`, `>`,
/// `>>`, `&`, `$`, `(`, `)`, `{`, `}`), as long as no two neighbouring
/// operators are written back into one (`|` then `|` reads as `||`): the
/// subshell ends after its matching `)`, and the text handed to `rshell -c`
/// is the body written back, whose tokens are the body again.
pub proof fn law_subshell_text_relexes_with_operators(
    toks: Seq<SpecToken>,
    inner: Seq<SpecToken>,
    ast: Seq<SpecNode>,
)
    requires
        forall|k: int| 0 <= k < inner.len() ==> renders_back(#[trigger] inner[k]),
        no_merges(inner),
        balanced(inner),
        toks.len() >= inner.len() + 2,
        toks[0] == SpecToken::LeftParen,
        toks[inner.len() + 1int] == SpecToken::RightParen,
        forall|m: int| 0 <= m < inner.len() ==> toks[m + 1] == inner[m],
    ensures
        subshell(toks, 0, ast) == Ok::<(int, Seq<SpecNode>, SpecNode), Failure>(
            (inner.len() + 2int, ast, SpecNode::Subshell { cmd: render_all(inner) }),
        ),
        spec_lex(render_all(inner)) == Ok::<Seq<SpecToken>, Seq<char>>(inner),
{
    lemma_scan_balanced(toks, inner, 0);
    assert(inner.skip(0) =~= inner);
    assert((render_all(inner) + seq![')']).drop_last() =~= render_all(inner));
    lemma_lex_rendered(inner);
}

/// Whether `n` is a command or a subshell.
pub open spec fn runs_one_process(n: SpecNode) -> bool {
    n is Command || n is Subshell
}

/// A pipeline of commands and subshells runs one process per member, in
/// order: a command runs its program with its arguments, a subshell runs the
/// shell itself with `-c` and the subshell's text.
pub proof fn law_pipeline_members_run_in_order(cmds: Seq<SpecNode>)
    requires
        forall|k: int| 0 <= k < cmds.len() ==> runs_one_process(#[trigger] cmds[k]),
    ensures
        pipe_processes(cmds) is Ok,
        pipe_processes(cmds)->Ok_0.len() == cmds.len(),
        forall|k: int|
            0 <= k < cmds.len() ==> match #[trigger] cmds[k] {
                SpecNode::Command { cmd, args } => pipe_processes(cmds)->Ok_0[k].cmd == cmd
                    && pipe_processes(cmds)->Ok_0[k].args == args,
                SpecNode::Subshell { cmd } => pipe_processes(cmds)->Ok_0[k].cmd
                    == "./target/debug/rshell"@ && pipe_processes(cmds)->Ok_0[k].args == seq![
                    "-c"@,
                    cmd,
                ],
                _ => false,
            },
    decreases cmds.len(),
{
    if cmds.len() > 0 {
        let rest = cmds.drop_first();
        assert forall|k: int| 0 <= k < rest.len() implies runs_one_process(#[trigger] rest[k]) by {
            assert(rest[k] == cmds[k + 1]);
        }
        law_pipeline_members_run_in_order(rest);
        assert(runs_one_process(cmds[0]));
        let ps = pipe_processes(cmds)->Ok_0;
        let pr = pipe_processes(rest)->Ok_0;
        assert forall|k: int| 0 <= k < cmds.len() implies match #[trigger] cmds[k] {
            SpecNode::Command { cmd, args } => ps[k].cmd == cmd && ps[k].args == args,
            SpecNode::Subshell { cmd } => ps[k].cmd == "./target/debug/rshell"@ && ps[k].args
                == seq!["-c"@, cmd],
            _ => false,
        } by {
            if k > 0 {
                assert(rest[k - 1] == cmds[k]);
                assert(ps[k] == pr[k - 1]);
            }
        }
    }
}

} // verus!
