use vstd::prelude::*;

use crate::env::Environment;
use crate::lexer::{tokens_view, Token};
use crate::parser::{
    lemma_nodes_index, lemma_nodes_len, nodes_view, spec_build_ast, strings_view, try_build_ast,
    Failure, Node, Operator, SpecNode,
};
use crate::properties::law_parsed_lines_can_run;
use crate::process::{Process, SpecProcess};

verus! {

/// One step of running a syntax tree.
pub enum Step {
    /// Run `proc`; when `record` holds, its exit status becomes the line's.
    Run { proc: Process, record: bool },
    /// Run `procs` as a pipeline.
    RunPipe { procs: Vec<Process>, record: bool },
    /// Run `proc` with its standard input read from `file`.
    RunRedirectInput { proc: Process, file: String, record: bool },
    /// A node that is not carried out yet: the shell prints `TODO: expr`.
    Unsupported,
    /// Stop with this error.
    Fail(String),
}

/// The value of a [`Step`]; `Abort` marks a tree on which running has no
/// defined outcome (an input redirection without a command).
pub enum SpecStep {
    Run { proc: SpecProcess, record: bool },
    RunPipe { procs: Seq<SpecProcess>, record: bool },
    RunRedirectInput { proc: SpecProcess, file: Seq<char>, record: bool },
    Unsupported,
    Fail(Seq<char>),
    Abort,
}

pub open spec fn processes_view(ps: Seq<Process>) -> Seq<SpecProcess> {
    ps.map_values(|p: Process| p@)
}

impl View for Step {
    type V = SpecStep;

    open spec fn view(&self) -> SpecStep {
        match self {
            Step::Run { proc, record } => SpecStep::Run { proc: proc@, record: *record },
            Step::RunPipe { procs, record } => SpecStep::RunPipe {
                procs: processes_view(procs@),
                record: *record,
            },
            Step::RunRedirectInput { proc, file, record } => SpecStep::RunRedirectInput {
                proc: proc@,
                file: file@,
                record: *record,
            },
            Step::Unsupported => SpecStep::Unsupported,
            Step::Fail(e) => SpecStep::Fail(e@),
        }
    }
}

pub open spec fn steps_view(ss: Seq<Step>) -> Seq<SpecStep> {
    ss.map_values(|s: Step| s@)
}

/// The program that runs the text of a subshell: the shell itself, with `-c`.
pub open spec fn subshell_process(cmd: Seq<char>) -> SpecProcess {
    SpecProcess { cmd: "./target/debug/rshell"@, args: seq!["-c"@, cmd] }
}

/// The process of a command or subshell node; `None` for the other nodes.
pub open spec fn to_process(n: SpecNode) -> Option<SpecProcess> {
    match n {
        SpecNode::Command { cmd, args } => Some(SpecProcess { cmd, args }),
        SpecNode::Subshell { cmd } => Some(subshell_process(cmd)),
        _ => None,
    }
}

/// The processes of the members of an inline group inside a pipeline, or the
/// error of the first member that is no command or subshell.
pub open spec fn group_processes(ns: Seq<SpecNode>) -> Result<Seq<SpecProcess>, Seq<char>>
    decreases ns.len(),
{
    if ns.len() == 0 {
        Ok(seq![])
    } else {
        match to_process(ns[0]) {
            None => Err("cannot convert command to process"@),
            Some(p) => match group_processes(ns.drop_first()) {
                Ok(rest) => Ok(seq![p] + rest),
                Err(e) => Err(e),
            },
        }
    }
}

/// The processes of a pipeline's members: commands and subshells give one
/// each, inline groups one per member, input redirections none; any other
/// member makes the pipeline invalid.
pub open spec fn pipe_processes(cmds: Seq<SpecNode>) -> Result<Seq<SpecProcess>, Seq<char>>
    decreases cmds.len(),
{
    if cmds.len() == 0 {
        Ok(seq![])
    } else {
        let here: Result<Seq<SpecProcess>, Seq<char>> = match cmds[0] {
            SpecNode::Command { .. } => Ok(seq![to_process(cmds[0])->Some_0]),
            SpecNode::Subshell { .. } => Ok(seq![to_process(cmds[0])->Some_0]),
            SpecNode::InlineGroup { cmds: inner } => group_processes(inner),
            SpecNode::Redirect { op, .. } => if op == Operator::RedirectInput {
                Ok(seq![])
            } else {
                Err("invalid pipe"@)
            },
            _ => Err("invalid pipe"@),
        };
        match here {
            Err(e) => Err(e),
            Ok(p) => match pipe_processes(cmds.drop_first()) {
                Ok(rest) => Ok(p + rest),
                Err(e) => Err(e),
            },
        }
    }
}

/// The steps of an input redirection of an inline group's members: each
/// member runs reading `file`, until one is no command or subshell.
pub open spec fn redirect_group_steps(ns: Seq<SpecNode>, file: Seq<char>, record: bool) -> Seq<
    SpecStep,
>
    decreases ns.len(),
{
    if ns.len() == 0 {
        seq![]
    } else {
        match to_process(ns[0]) {
            None => seq![SpecStep::Fail("cannot convert command to process"@)],
            Some(p) => seq![SpecStep::RunRedirectInput { proc: p, file, record }]
                + redirect_group_steps(ns.drop_first(), file, record),
        }
    }
}

/// Whether a list of steps ends the run: its last step is an error.
pub open spec fn stops(ss: Seq<SpecStep>) -> bool {
    ss.len() > 0 && (ss.last() is Fail || ss.last() is Abort)
}

/// The steps of one node; `top` tells whether the node stands at the top of
/// the line (only there do statuses count).
pub open spec fn plan_node(n: SpecNode, top: bool) -> Seq<SpecStep>
    decreases n, 0int,
{
    match n {
        SpecNode::Command { cmd, args } => seq![
            SpecStep::Run { proc: SpecProcess { cmd, args }, record: top },
        ],
        SpecNode::Subshell { cmd } => seq![SpecStep::Run { proc: subshell_process(cmd), record: top }],
        SpecNode::InlineGroup { cmds } => plan_from(cmds, 0, false),
        SpecNode::Redirect { op, cmds, file } => if op == Operator::Pipe {
            match pipe_processes(cmds) {
                Ok(ps) => seq![SpecStep::RunPipe { procs: ps, record: top }],
                Err(e) => seq![SpecStep::Fail(e)],
            }
        } else if op == Operator::RedirectInput {
            if cmds.len() == 0 {
                seq![SpecStep::Abort]
            } else {
                match cmds[0] {
                    SpecNode::Command { .. } => seq![
                        SpecStep::RunRedirectInput {
                            proc: to_process(cmds[0])->Some_0,
                            file,
                            record: top,
                        },
                    ],
                    SpecNode::Subshell { .. } => seq![
                        SpecStep::RunRedirectInput {
                            proc: to_process(cmds[0])->Some_0,
                            file,
                            record: top,
                        },
                    ],
                    SpecNode::InlineGroup { cmds: inner } => redirect_group_steps(inner, file, top),
                    _ => seq![SpecStep::Fail("parse error near '<'"@)],
                }
            }
        } else {
            seq![SpecStep::Unsupported]
        },
        SpecNode::Binary { .. } => seq![SpecStep::Unsupported],
    }
}

/// The steps of the nodes from index `i` on: node after node, until one stops
/// the run.
pub open spec fn plan_from(ns: Seq<SpecNode>, i: int, top: bool) -> Seq<SpecStep>
    decreases ns, ns.len() - i,
{
    if i < 0 || i >= ns.len() {
        seq![]
    } else {
        let p = plan_node(ns[i], top);
        if stops(p) {
            p
        } else {
            p + plan_from(ns, i + 1, top)
        }
    }
}

/// The steps of running a syntax tree.
pub open spec fn spec_plan(ns: Seq<SpecNode>) -> Seq<SpecStep> {
    plan_from(ns, 0, true)
}

/// Whether running a syntax tree has a defined outcome.
pub open spec fn plan_defined(ns: Seq<SpecNode>) -> bool {
    forall|k: int| 0 <= k < spec_plan(ns).len() ==> !(#[trigger] spec_plan(ns)[k] is Abort)
}


/// No step of `ss` is `Abort`.
pub open spec fn no_abort(ss: Seq<SpecStep>) -> bool {
    forall|k: int| 0 <= k < ss.len() ==> !(#[trigger] ss[k] is Abort)
}

proof fn lemma_no_abort_split(a: Seq<SpecStep>, b: Seq<SpecStep>)
    requires
        no_abort(a + b),
    ensures
        no_abort(a),
        no_abort(b),
{
    assert forall|k: int| 0 <= k < a.len() implies !(#[trigger] a[k] is Abort) by {
        assert((a + b)[k] == a[k]);
    }
    assert forall|k: int| 0 <= k < b.len() implies !(#[trigger] b[k] is Abort) by {
        assert((a + b)[a.len() + k] == b[k]);
    }
}

proof fn lemma_steps_push(v: Seq<Step>, s: Step)
    ensures
        steps_view(v.push(s)) == steps_view(v) + seq![s@],
{
    assert(steps_view(v.push(s)) =~= steps_view(v) + seq![s@]);
}

proof fn lemma_processes_push(v: Seq<Process>, p: Process)
    ensures
        processes_view(v.push(p)) == processes_view(v) + seq![p@],
{
    assert(processes_view(v.push(p)) =~= processes_view(v) + seq![p@]);
}

/// A copy of each string of `v`.
pub(crate) fn clone_strings(v: &Vec<String>) -> (r: Vec<String>)
    ensures
        strings_view(r@) == strings_view(v@),
{
    let mut r: Vec<String> = Vec::new();
    let mut i: usize = 0;
    while i < v.len()
        invariant
            i <= v.len(),
            strings_view(r@) == strings_view(v@.take(i as int)),
        decreases v.len() - i,
    {
        let c = v[i].clone();
        proof {
            assert(v@.take(i + 1) =~= v@.take(i as int).push(v@[i as int]));
            assert(strings_view(r@.push(c)) =~= strings_view(r@).push(c@));
            assert(strings_view(v@.take(i as int).push(v@[i as int])) =~= strings_view(
                v@.take(i as int),
            ).push(v@[i as int]@));
        }
        r.push(c);
        i = i + 1;
    }
    assert(v@.take(v.len() as int) =~= v@);
    r
}

/// The process that runs the text `cmd` of a subshell.
fn subshell_to_process(cmd: &String) -> (r: Process)
    ensures
        r@ == subshell_process(cmd@),
{
    let mut args: Vec<String> = Vec::new();
    args.push(String::from_str("-c"));
    args.push(cmd.clone());
    let r = Process { cmd: String::from_str("./target/debug/rshell"), args };
    assert(r@.args =~= seq!["-c"@, cmd@]);
    r
}

/// The process of a command or subshell node; an error for the other nodes.
fn command_to_proccess(command: &Node) -> (r: Result<Process, String>)
    ensures
        match to_process(command@) {
            Some(p) => r matches Ok(q) && q@ == p,
            None => r matches Err(e) && e@ == "cannot convert command to process"@,
        },
{
    match command {
        Node::Command { cmd, args } => {
            let p = Process { cmd: cmd.clone(), args: clone_strings(args) };
            Ok(p)
        },
        Node::Subshell { cmd } => Ok(subshell_to_process(cmd)),
        _ => Err(String::from_str("cannot convert command to process")),
    }
}

/// The processes of a pipeline's members (see [`pipe_processes`]).
fn pipe_processes_of(cmds: &Vec<Node>) -> (r: Result<Vec<Process>, String>)
    ensures
        match r {
            Ok(ps) => pipe_processes(nodes_view(cmds@)) == Ok::<Seq<SpecProcess>, Seq<char>>(
                processes_view(ps@),
            ),
            Err(e) => pipe_processes(nodes_view(cmds@)) == Err::<Seq<SpecProcess>, Seq<char>>(e@),
        },
{
    let ghost ns = nodes_view(cmds@);
    let mut procs: Vec<Process> = Vec::new();
    let mut k: usize = 0;
    proof {
        lemma_nodes_len(cmds@);
        assert(ns.skip(0) =~= ns);
        match pipe_processes(ns) {
            Ok(rest) => {
                assert(processes_view(procs@) + rest =~= rest);
            },
            Err(e) => {},
        }
    }
    while k < cmds.len()
        invariant
            ns == nodes_view(cmds@),
            ns.len() == cmds.len(),
            k <= cmds.len(),
            match pipe_processes(ns.skip(k as int)) {
                Ok(rest) => pipe_processes(ns) == Ok::<Seq<SpecProcess>, Seq<char>>(
                    processes_view(procs@) + rest,
                ),
                Err(e) => pipe_processes(ns) == Err::<Seq<SpecProcess>, Seq<char>>(e),
            },
        decreases cmds.len() - k,
    {
        let ghost rest = ns.skip(k as int);
        let ghost done = processes_view(procs@);
        proof {
            lemma_nodes_index(cmds@, k as int);
            assert(rest[0] == cmds@[k as int]@);
            assert(rest.drop_first() =~= ns.skip(k + 1));
        }
        match &cmds[k] {
            Node::Command { .. } | Node::Subshell { .. } => {
                let p = match command_to_proccess(&cmds[k]) {
                    Ok(p) => p,
                    Err(e) => {
                        return Err(e);
                    },
                };
                proof {
                    lemma_processes_push(procs@, p);
                    match pipe_processes(ns.skip(k + 1)) {
                        Ok(r2) => {
                            assert(done + seq![p@] + r2 =~= done + (seq![p@] + r2));
                        },
                        Err(e) => {},
                    }
                }
                procs.push(p);
            },
            Node::InlineGroup { cmds: inner } => {
                let ghost inner_ns = nodes_view(inner@);
                assert(rest[0] == SpecNode::InlineGroup { cmds: inner_ns });
                let mut m: usize = 0;
                let ghost start = processes_view(procs@);
                proof {
                    lemma_nodes_len(inner@);
                    assert(inner_ns.skip(0) =~= inner_ns);
                    match group_processes(inner_ns) {
                        Ok(g) => {
                            assert(start + Seq::<SpecProcess>::empty() =~= start);
                        },
                        Err(e) => {},
                    }
                }
                assert(processes_view(procs@) =~= start + Seq::<SpecProcess>::empty());
                while m < inner.len()
                    invariant
                        inner_ns == nodes_view(inner@),
                        inner_ns.len() == inner.len(),
                        m <= inner.len(),
                        ns == nodes_view(cmds@),
                        ns.len() == cmds.len(),
                        k < cmds.len(),
                        rest == ns.skip(k as int),
                        rest.len() > 0,
                        rest[0] == (SpecNode::InlineGroup { cmds: inner_ns }),
                        start == done,
                        match pipe_processes(rest) {
                            Ok(r1) => pipe_processes(ns) == Ok::<Seq<SpecProcess>, Seq<char>>(
                                done + r1,
                            ),
                            Err(e) => pipe_processes(ns) == Err::<Seq<SpecProcess>, Seq<char>>(e),
                        },
                        match group_processes(inner_ns.skip(m as int)) {
                            Ok(g2) => match group_processes(inner_ns) {
                                Ok(g) => processes_view(procs@) + g2 == start + g,
                                Err(e) => false,
                            },
                            Err(e) => group_processes(inner_ns) == Err::<
                                Seq<SpecProcess>,
                                Seq<char>,
                            >(e),
                        },
                    decreases inner.len() - m,
                {
                    proof {
                        lemma_nodes_index(inner@, m as int);
                        assert(inner_ns.skip(m as int)[0] == inner@[m as int]@);
                        assert(inner_ns.skip(m as int).drop_first() =~= inner_ns.skip(m + 1));
                    }
                    let p = match command_to_proccess(&inner[m]) {
                        Ok(p) => p,
                        Err(e) => {
                            proof {
                                assert(group_processes(inner_ns.skip(m as int)) == Err::<
                                    Seq<SpecProcess>,
                                    Seq<char>,
                                >(e@));
                            }
                            return Err(e);
                        },
                    };
                    proof {
                        lemma_processes_push(procs@, p);
                        match group_processes(inner_ns.skip(m + 1)) {
                            Ok(g3) => {
                                assert(processes_view(procs@) + seq![p@] + g3 =~= processes_view(
                                    procs@,
                                ) + (seq![p@] + g3));
                            },
                            Err(e) => {},
                        }
                    }
                    procs.push(p);
                    m = m + 1;
                }
                proof {
                    assert(inner_ns.skip(m as int) =~= Seq::<SpecNode>::empty());
                    assert(processes_view(procs@) + Seq::<SpecProcess>::empty() =~= processes_view(
                        procs@,
                    ));
                    assert(rest[0] == SpecNode::InlineGroup { cmds: inner_ns });
                    match pipe_processes(ns.skip(k + 1)) {
                        Ok(r2) => {
                            let g = group_processes(inner_ns)->Ok_0;
                            assert(done + g + r2 =~= done + (g + r2));
                        },
                        Err(e) => {},
                    }
                }
            },
            Node::Redirect { op: Operator::RedirectInput, .. } => {
                proof {
                    match pipe_processes(ns.skip(k + 1)) {
                        Ok(r2) => {
                            assert(done + (Seq::<SpecProcess>::empty() + r2) =~= done + r2);
                        },
                        Err(e) => {},
                    }
                }
            },
            _ => {
                return Err(String::from_str("invalid pipe"));
            },
        }
        k = k + 1;
    }
    proof {
        assert(ns.skip(k as int) =~= Seq::<SpecNode>::empty());
        assert(processes_view(procs@) + Seq::<SpecProcess>::empty() =~= processes_view(procs@));
    }
    Ok(procs)
}


/// The steps of an input redirection of an inline group's `members`, each
/// reading `file` (see [`redirect_group_steps`]); returns whether a member
/// stopped the run.
fn redirect_group_into(members: &Vec<Node>, file: &String, record: bool, out: &mut Vec<Step>) -> (stopped: bool)
    ensures
        steps_view(final(out)@) == steps_view(old(out)@) + redirect_group_steps(
            nodes_view(members@),
            file@,
            record,
        ),
        stopped == stops(redirect_group_steps(nodes_view(members@), file@, record)),
{
    let ghost ns = nodes_view(members@);
    let ghost start = steps_view(out@);
    let mut m: usize = 0;
    proof {
        lemma_nodes_len(members@);
        assert(ns.skip(0) =~= ns);
        assert(steps_view(out@) =~= start + Seq::<SpecStep>::empty());
        assert(Seq::<SpecStep>::empty() + redirect_group_steps(ns.skip(0), file@, record) =~= redirect_group_steps(ns, file@, record));
    }
    while m < members.len()
        invariant
            ns == nodes_view(members@),
            ns.len() == members.len(),
            m <= members.len(),
            start == steps_view(old(out)@),
            exists|done: Seq<SpecStep>|
                #![trigger done + redirect_group_steps(ns.skip(m as int), file@, record)]
                steps_view(out@) == start + done && done + redirect_group_steps(
                    ns.skip(m as int),
                    file@,
                    record,
                ) == redirect_group_steps(ns, file@, record) && !stops(done),
        decreases members.len() - m,
    {
        let ghost done = choose|done: Seq<SpecStep>|
            #![trigger done + redirect_group_steps(ns.skip(m as int), file@, record)]
            steps_view(out@) == start + done && done + redirect_group_steps(
                ns.skip(m as int),
                file@,
                record,
            ) == redirect_group_steps(ns, file@, record) && !stops(done);
        let ghost rest = ns.skip(m as int);
        proof {
            lemma_nodes_index(members@, m as int);
            assert(rest[0] == members@[m as int]@);
            assert(rest.drop_first() =~= ns.skip(m + 1));
        }
        match command_to_proccess(&members[m]) {
            Ok(p) => {
                let step = Step::RunRedirectInput { proc: p, file: file.clone(), record };
                proof {
                    lemma_steps_push(out@, step);
                    let d2 = done + seq![step@];
                    assert(d2 + redirect_group_steps(ns.skip(m + 1), file@, record) =~= done + (
                    seq![step@] + redirect_group_steps(rest.drop_first(), file@, record)));
                    assert(start + done + seq![step@] =~= start + d2);
                    assert(!stops(d2));
                }
                out.push(step);
            },
            Err(e) => {
                let step = Step::Fail(e);
                proof {
                    lemma_steps_push(out@, step);
                    assert(done + seq![step@] == redirect_group_steps(ns, file@, record));
                    assert(start + done + seq![step@] =~= start + (done + seq![step@]));
                    assert((done + seq![step@]).last() == step@);
                }
                out.push(step);
                return true;
            },
        }
        m = m + 1;
    }
    proof {
        assert(ns.skip(m as int) =~= Seq::<SpecNode>::empty());
        let done = choose|done: Seq<SpecStep>|
            #![trigger done + redirect_group_steps(ns.skip(m as int), file@, record)]
            steps_view(out@) == start + done && done + redirect_group_steps(
                ns.skip(m as int),
                file@,
                record,
            ) == redirect_group_steps(ns, file@, record) && !stops(done);
        assert(done + Seq::<SpecStep>::empty() =~= done);
    }
    false
}

/// Appends the steps of node `n` (see [`plan_node`]) to `out`; returns whether
/// they stop the run.
fn plan_node_into(n: &Node, top: bool, out: &mut Vec<Step>) -> (stopped: bool)
    requires
        no_abort(plan_node(n@, top)),
    ensures
        steps_view(final(out)@) == steps_view(old(out)@) + plan_node(n@, top),
        stopped == stops(plan_node(n@, top)),
    decreases n@, 1int,
{
    match n {
        Node::Command { cmd, args } => {
            let step = Step::Run { proc: Process { cmd: cmd.clone(), args: clone_strings(args) }, record: top };
            proof {
                lemma_steps_push(out@, step);
            }
            out.push(step);
            false
        },
        Node::Subshell { cmd } => {
            let step = Step::Run { proc: subshell_to_process(cmd), record: top };
            proof {
                lemma_steps_push(out@, step);
            }
            out.push(step);
            false
        },
        Node::InlineGroup { cmds } => {
            proof {
                assert(n@ == SpecNode::InlineGroup { cmds: nodes_view(cmds@) });
            }
            plan_from_into(cmds, false, out)
        },
        Node::Redirect { op, cmds, file } => {
            if *op == Operator::Pipe {
                match pipe_processes_of(cmds) {
                    Ok(ps) => {
                        let step = Step::RunPipe { procs: ps, record: top };
                        proof {
                            lemma_steps_push(out@, step);
                        }
                        out.push(step);
                        false
                    },
                    Err(e) => {
                        let step = Step::Fail(e);
                        proof {
                            lemma_steps_push(out@, step);
                        }
                        out.push(step);
                        true
                    },
                }
            } else if *op == Operator::RedirectInput {
                proof {
                    lemma_nodes_len(cmds@);
                }
                if cmds.len() == 0 {
                    assert(plan_node(n@, top)[0] is Abort);
                    return true;
                }
                proof {
                    lemma_nodes_index(cmds@, 0);
                }
                match &cmds[0] {
                    Node::Command { .. } | Node::Subshell { .. } => {
                        let p = match command_to_proccess(&cmds[0]) {
                            Ok(p) => p,
                            Err(e) => {
                                return true;
                            },
                        };
                        let step = Step::RunRedirectInput { proc: p, file: file.clone(), record: top };
                        proof {
                            lemma_steps_push(out@, step);
                        }
                        out.push(step);
                        false
                    },
                    Node::InlineGroup { cmds: inner } => {
                        redirect_group_into(inner, file, top, out)
                    },
                    _ => {
                        let step = Step::Fail(String::from_str("parse error near '<'"));
                        proof {
                            lemma_steps_push(out@, step);
                        }
                        out.push(step);
                        true
                    },
                }
            } else {
                let step = Step::Unsupported;
                proof {
                    lemma_steps_push(out@, step);
                }
                out.push(step);
                false
            }
        },
        Node::Binary { .. } => {
            let step = Step::Unsupported;
            proof {
                lemma_steps_push(out@, step);
            }
            out.push(step);
            false
        },
    }
}

/// Appends the steps of the nodes `ns` (see [`plan_from`]) to `out`; returns
/// whether they stop the run.
fn plan_from_into(ns: &Vec<Node>, top: bool, out: &mut Vec<Step>) -> (stopped: bool)
    requires
        no_abort(plan_from(nodes_view(ns@), 0, top)),
    ensures
        steps_view(final(out)@) == steps_view(old(out)@) + plan_from(nodes_view(ns@), 0, top),
        stopped == stops(plan_from(nodes_view(ns@), 0, top)),
    decreases nodes_view(ns@), 0int,
{
    let ghost v = nodes_view(ns@);
    let ghost start = steps_view(out@);
    let mut i: usize = 0;
    proof {
        lemma_nodes_len(ns@);
        assert(steps_view(out@) =~= start + Seq::<SpecStep>::empty());
        assert(Seq::<SpecStep>::empty() + plan_from(v, 0, top) =~= plan_from(v, 0, top));
    }
    while i < ns.len()
        invariant
            v == nodes_view(ns@),
            v.len() == ns.len(),
            i <= ns.len(),
            start == steps_view(old(out)@),
            no_abort(plan_from(v, 0, top)),
            exists|done: Seq<SpecStep>|
                #![trigger done + plan_from(v, i as int, top)]
                steps_view(out@) == start + done && done + plan_from(v, i as int, top) == plan_from(
                    v,
                    0,
                    top,
                ) && !stops(done),
        decreases ns.len() - i,
    {
        let ghost done = choose|done: Seq<SpecStep>|
            #![trigger done + plan_from(v, i as int, top)]
            steps_view(out@) == start + done && done + plan_from(v, i as int, top) == plan_from(
                v,
                0,
                top,
            ) && !stops(done);
        let ghost p = plan_node(v[i as int], top);
        proof {
            lemma_nodes_index(ns@, i as int);
            if stops(p) {
                assert(plan_from(v, i as int, top) == p);
            } else {
                assert(plan_from(v, i as int, top) == p + plan_from(v, i + 1, top));
                lemma_no_abort_split(done, p + plan_from(v, i + 1, top));
                lemma_no_abort_split(p, plan_from(v, i + 1, top));
            }
            lemma_no_abort_split(done, plan_from(v, i as int, top));
            if stops(p) {
                assert(no_abort(p));
            }
            assert(decreases_to!(v => v[i as int]));
        }
        let stopped = plan_node_into(&ns[i], top, out);
        if stopped {
            proof {
                assert(steps_view(out@) =~= start + (done + p));
            }
            return true;
        }
        proof {
            let d2 = done + p;
            assert(steps_view(out@) =~= start + d2);
            assert(d2 + plan_from(v, i + 1, top) =~= done + (p + plan_from(v, i + 1, top)));
            if d2.len() > 0 {
                if p.len() > 0 {
                    assert(d2.last() == p.last());
                } else {
                    assert(d2 =~= done);
                }
            }
        }
        i = i + 1;
    }
    proof {
        let done = choose|done: Seq<SpecStep>|
            #![trigger done + plan_from(v, i as int, top)]
            steps_view(out@) == start + done && done + plan_from(v, i as int, top) == plan_from(
                v,
                0,
                top,
            ) && !stops(done);
        assert(done + Seq::<SpecStep>::empty() =~= done);
    }
    false
}

/// The steps of running a syntax tree (see [`spec_plan`]): its nodes in order,
/// until a step stops the run with an error.  Trees on which running has no
/// defined outcome are left out; [`build_ast`](crate::parser::build_ast)
/// produces none of them.
pub fn plan_expr(ast: &Vec<Node>) -> (r: Vec<Step>)
    requires
        plan_defined(nodes_view(ast@)),
    ensures
        steps_view(r@) == spec_plan(nodes_view(ast@)),
{
    let mut out: Vec<Step> = Vec::new();
    proof {
        assert(no_abort(spec_plan(nodes_view(ast@))));
    }
    plan_from_into(ast, true, &mut out);
    assert(steps_view(out@) =~= Seq::<SpecStep>::empty() + spec_plan(nodes_view(ast@)));
    out
}

/// The steps of a command line given as tokens, `$NAME` expanded through
/// `env`: `Some(Err(..))` with the message of the first syntax error,
/// `Some(Ok(..))` with the steps of its tree, and `None` exactly on the token
/// sequences whose tree has no defined outcome (see
/// [`build_ast`](crate::parser::build_ast)).
pub fn plan_line(tokens: &[Token], env: &Environment) -> (r: Option<Result<Vec<Step>, String>>)
    ensures
        match r {
            None => spec_build_ast(tokens_view(tokens@), env@) == Err::<Seq<SpecNode>, Failure>(
                Failure::Abort,
            ),
            Some(Err(e)) => spec_build_ast(tokens_view(tokens@), env@) == Err::<
                Seq<SpecNode>,
                Failure,
            >(Failure::Error(e@)),
            Some(Ok(steps)) => exists|ns: Seq<SpecNode>|
                spec_build_ast(tokens_view(tokens@), env@) == Ok::<Seq<SpecNode>, Failure>(ns)
                    && steps_view(steps@) == #[trigger] spec_plan(ns),
        },
{
    match try_build_ast(tokens, env) {
        None => None,
        Some(Err(e)) => Some(Err(e)),
        Some(Ok(ast)) => {
            proof {
                law_parsed_lines_can_run(tokens_view(tokens@), env@);
            }
            let steps = plan_expr(&ast);
            Some(Ok(steps))
        },
    }
}

/// What the shell does next while it runs the steps of a line.
pub enum LineAction {
    /// Carry out step `i`: run its process, pipeline or redirection.
    Run(usize),
    /// Step `i` is not carried out yet: print `TODO: expr` and go on.
    Report(usize),
    /// Stop the line with this error; no later step runs.
    Stop(String),
    /// Every step is done.
    Finish,
}

pub enum SpecLineAction {
    Run(int),
    Report(int),
    Stop(Seq<char>),
    Finish,
}

impl View for LineAction {
    type V = SpecLineAction;

    open spec fn view(&self) -> SpecLineAction {
        match self {
            LineAction::Run(i) => SpecLineAction::Run(*i as int),
            LineAction::Report(i) => SpecLineAction::Report(*i as int),
            LineAction::Stop(e) => SpecLineAction::Stop(e@),
            LineAction::Finish => SpecLineAction::Finish,
        }
    }
}

/// The next action after the first `done` steps, `last` being the outcome of
/// the step carried out last (`Ok` before the first): a failure stops the line
/// with its message; otherwise the next step runs (or is reported, or stops
/// the line with its error), and after the last step the line is finished.
pub open spec fn spec_next_action(steps: Seq<SpecStep>, done: int, last: Result<(), Seq<char>>) -> SpecLineAction {
    match last {
        Err(e) => SpecLineAction::Stop(e),
        Ok(()) => if done < 0 || done >= steps.len() {
            SpecLineAction::Finish
        } else {
            match steps[done] {
                SpecStep::Unsupported => SpecLineAction::Report(done),
                SpecStep::Fail(e) => SpecLineAction::Stop(e),
                SpecStep::Abort => SpecLineAction::Finish,
                _ => SpecLineAction::Run(done),
            }
        },
    }
}

/// Decides what the shell does next while running `steps`, after the first
/// `done` of them, given the outcome `last` of the step carried out last (see
/// [`spec_next_action`]).
pub fn next_action(steps: &Vec<Step>, done: usize, last: Result<(), String>) -> (r: LineAction)
    ensures
        r@ == spec_next_action(
            steps_view(steps@),
            done as int,
            match last {
                Ok(()) => Ok(()),
                Err(e) => Err(e@),
            },
        ),
{
    match last {
        Err(e) => LineAction::Stop(e),
        Ok(()) => {
            if done >= steps.len() {
                return LineAction::Finish;
            }
            assert(steps_view(steps@)[done as int] == steps@[done as int]@);
            match &steps[done] {
                Step::Unsupported => LineAction::Report(done),
                Step::Fail(e) => LineAction::Stop(e.clone()),
                _ => LineAction::Run(done),
            }
        },
    }
}

} // verus!
