//! Expansion of protocol bodies into state machines.
use vstd::prelude::*;
use vstd::string::*;

use crate::ast::{
    File,
    copy_seq, copy_stmt, lemma_seqs_view, lemma_stmts_view, seq_equal, seq_equiv,
    seqs_view, stmt_view, stmts_view, Message, MessageModel, Protocol, Role, Sequence, Sequences,
    Stmt, StmtModel,
};
use crate::parser::{RawSpan, Span};
use crate::state_machine::{State, StateMachine, Transition, TransitionModel, MAX_STATES};

verus! {

/// A step of a residual sequence: the message sent, with its span, and the
/// sequence that remains.
pub type Step = (RawSpan, MessageModel, Seq<StmtModel>);

/// A statement may finish without sending anything.
pub open spec fn stmt_terminates(st: StmtModel) -> bool
    decreases st, 0nat,
{
    match st {
        StmtModel::Message(_, _) => false,
        StmtModel::Choice(bs) => some_terminates(bs),
        StmtModel::Par(bs) => all_terminate(bs),
        StmtModel::Fin(_) => true,
        StmtModel::Inf(_) => false,
    }
}

/// Some branch may finish.
pub open spec fn some_terminates(bs: Seq<Seq<StmtModel>>) -> bool
    decreases bs, 0nat,
{
    exists|i: int| #![trigger bs[i]] 0 <= i < bs.len() && seq_terminates(bs[i])
}

/// Every branch may finish.
pub open spec fn all_terminate(bs: Seq<Seq<StmtModel>>) -> bool
    decreases bs, 0nat,
{
    forall|i: int| #![trigger bs[i]] 0 <= i < bs.len() ==> seq_terminates(bs[i])
}

/// A sequence may finish without sending anything: each statement may.
pub open spec fn seq_terminates(s: Seq<StmtModel>) -> bool
    decreases s, 0nat,
{
    forall|i: int| #![trigger s[i]] 0 <= i < s.len() ==> stmt_terminates(s[i])
}

/// Each step of `ts`, with `suffix` appended to what remains.
pub open spec fn then(ts: Seq<Step>, suffix: Seq<StmtModel>) -> Seq<Step> {
    ts.map_values(|t: Step| (t.0, t.1, t.2 + suffix))
}

/// The steps of the branches of a `choice`, the first `n` branches in order,
/// each followed by `rest`.
pub open spec fn choice_steps(bs: Seq<Seq<StmtModel>>, n: nat, rest: Seq<StmtModel>) -> Seq<Step>
    decreases bs, n,
{
    if n == 0 || n > bs.len() {
        Seq::empty()
    } else {
        choice_steps(bs, (n - 1) as nat, rest) + then(steps(bs[n - 1]), rest)
    }
}

/// The steps of branch `j` of a `par`: that branch moves on, the others stay,
/// and `rest` follows.
pub open spec fn par_branch_steps(bs: Seq<Seq<StmtModel>>, j: int, rest: Seq<StmtModel>) -> Seq<Step>
    decreases bs, 0nat,
{
    if 0 <= j < bs.len() {
        steps(bs[j]).map_values(
            |t: Step| (t.0, t.1, seq![StmtModel::Par(bs.update(j, t.2))] + rest),
        )
    } else {
        Seq::empty()
    }
}

/// The steps of the first `n` branches of a `par`, in order.
pub open spec fn par_steps(bs: Seq<Seq<StmtModel>>, n: nat, rest: Seq<StmtModel>) -> Seq<Step>
    decreases bs, n + 1,
{
    if n == 0 || n > bs.len() {
        Seq::empty()
    } else {
        par_steps(bs, (n - 1) as nat, rest) + par_branch_steps(bs, n - 1, rest)
    }
}

/// The steps that the first statement of `s` offers, each followed by the
/// rest of `s`.
pub open spec fn head_steps(s: Seq<StmtModel>) -> Seq<Step>
    decreases s, 1nat,
{
    if s.len() == 0 {
        Seq::empty()
    } else {
        let rest = s.subrange(1, s.len() as int);
        match s[0] {
            StmtModel::Message(sp, m) => seq![(sp, m, rest)],
            StmtModel::Choice(bs) => choice_steps(bs, bs.len(), rest),
            StmtModel::Par(bs) => par_steps(bs, bs.len(), rest),
            StmtModel::Inf(b) => then(steps(b), seq![StmtModel::Inf(b)] + rest),
            StmtModel::Fin(b) => then(steps(b), seq![StmtModel::Fin(b)] + rest),
        }
    }
}

/// Every message that `s` may send first, with the sequence that remains
/// after it: those of the first statement, then, where the first statement
/// may finish, those of the rest.
pub open spec fn steps(s: Seq<StmtModel>) -> Seq<Step>
    decreases s, 2nat,
{
    if s.len() == 0 {
        Seq::empty()
    } else {
        let rest = s.subrange(1, s.len() as int);
        head_steps(s) + if stmt_terminates(s[0]) {
            steps(rest)
        } else {
            Seq::empty()
        }
    }
}

pub open spec fn step_view(p: (Span<Message>, Sequence)) -> Step {
    (p.0.span, p.0.inner@, p.1@)
}

pub open spec fn steps_view(v: Seq<(Span<Message>, Sequence)>) -> Seq<Step> {
    v.map_values(|p: (Span<Message>, Sequence)| step_view(p))
}

/// Whether a sequence may finish without sending anything.
fn seq_may_terminate(s: &Sequence) -> (r: bool)
    ensures
        r == seq_terminates(s@),
    decreases s,
{
    proof {
        lemma_stmts_view(s.0@);
    }
    let mut i: usize = 0;
    while i < s.0.len()
        invariant
            i <= s.0@.len(),
            s@.len() == s.0@.len(),
            forall|k: int| 0 <= k < s.0@.len() ==> #[trigger] s@[k] == stmt_view(s.0@[k]),
            forall|k: int| 0 <= k < i ==> stmt_terminates(#[trigger] s@[k]),
        decreases s.0@.len() - i,
    {
        if !stmt_may_terminate(&s.0[i]) {
            assert(!stmt_terminates(s@[i as int]));
            return false;
        }
        i = i + 1;
    }
    true
}

/// Whether a statement may finish without sending anything.
fn stmt_may_terminate(st: &Stmt) -> (r: bool)
    ensures
        r == stmt_terminates(stmt_view(*st)),
    decreases st,
{
    match st {
        Stmt::Message(_) => false,
        Stmt::Fin(_) => true,
        Stmt::Inf(_) => false,
        Stmt::Choice(bs) => {
            proof {
                lemma_seqs_view(bs.0@);
            }
            let mut i: usize = 0;
            while i < bs.0.len()
                invariant
                    *st == Stmt::Choice(*bs),
                    i <= bs.0@.len(),
                    bs@.len() == bs.0@.len(),
                    forall|k: int| 0 <= k < bs.0@.len() ==> #[trigger] bs@[k] == bs.0@[k]@,
                    forall|k: int| 0 <= k < i ==> !seq_terminates(#[trigger] bs@[k]),
                decreases bs.0@.len() - i,
            {
                if seq_may_terminate(&bs.0[i]) {
                    assert(seq_terminates(bs@[i as int]));
                    assert(some_terminates(bs@));
                    assert(stmt_view(*st) == StmtModel::Choice(bs@));
                    return true;
                }
                i = i + 1;
            }
            assert(stmt_view(*st) == StmtModel::Choice(bs@));
            false
        },
        Stmt::Par(bs) => {
            proof {
                lemma_seqs_view(bs.0@);
            }
            let mut i: usize = 0;
            while i < bs.0.len()
                invariant
                    *st == Stmt::Par(*bs),
                    i <= bs.0@.len(),
                    bs@.len() == bs.0@.len(),
                    forall|k: int| 0 <= k < bs.0@.len() ==> #[trigger] bs@[k] == bs.0@[k]@,
                    forall|k: int| 0 <= k < i ==> seq_terminates(#[trigger] bs@[k]),
                decreases bs.0@.len() - i,
            {
                if !seq_may_terminate(&bs.0[i]) {
                    assert(!seq_terminates(bs@[i as int]));
                    assert(!all_terminate(bs@));
                    assert(stmt_view(*st) == StmtModel::Par(bs@));
                    return false;
                }
                i = i + 1;
            }
            assert(stmt_view(*st) == StmtModel::Par(bs@));
            true
        },
    }
}

/// The statements of `s` from index `from` on.
fn seq_from(s: &Sequence, from: usize) -> (r: Sequence)
    requires
        from <= s.0@.len(),
    ensures
        r@ == s@.subrange(from as int, s@.len() as int),
{
    proof {
        lemma_stmts_view(s.0@);
    }
    let mut v: Vec<Stmt> = Vec::new();
    let mut i: usize = from;
    while i < s.0.len()
        invariant
            from <= i <= s.0@.len(),
            v@.len() == i - from,
            forall|k: int| 0 <= k < v@.len() ==> stmt_view(#[trigger] v@[k]) == stmt_view(s.0@[k + from]),
        decreases s.0@.len() - i,
    {
        v.push(copy_stmt(&s.0[i]));
        i = i + 1;
    }
    proof {
        lemma_stmts_view(v@);
        assert(stmts_view(v@) =~= s@.subrange(from as int, s@.len() as int));
    }
    Sequence(v)
}

/// `a` followed by the statements of `b`.
fn concat(a: Sequence, b: &Sequence) -> (r: Sequence)
    ensures
        r@ == a@ + b@,
{
    proof {
        lemma_stmts_view(a.0@);
        lemma_stmts_view(b.0@);
    }
    let ghost a_view = a@;
    let mut v = a.0;
    let mut i: usize = 0;
    while i < b.0.len()
        invariant
            i <= b.0@.len(),
            b@.len() == b.0@.len(),
            forall|k: int| 0 <= k < b.0@.len() ==> #[trigger] b@[k] == stmt_view(b.0@[k]),
            a_view.len() + i == v@.len(),
            forall|k: int| 0 <= k < a_view.len() ==> stmt_view(#[trigger] v@[k]) == a_view[k],
            forall|k: int| a_view.len() <= k < v@.len() ==> stmt_view(#[trigger] v@[k]) == b@[k - a_view.len()],
        decreases b.0@.len() - i,
    {
        v.push(copy_stmt(&b.0[i]));
        i = i + 1;
    }
    proof {
        lemma_stmts_view(v@);
        assert forall|k: int| 0 <= k < v@.len() implies #[trigger] stmts_view(v@)[k] == (a_view + b@)[k] by {
        }
        assert(stmts_view(v@) =~= a_view + b@);
    }
    Sequence(v)
}

/// Every message that `seq` may send first, with the sequence that remains
/// after it, in order.
#[verifier::rlimit(80)]
pub fn generate_transitions(seq: &Sequence) -> (r: Vec<(Span<Message>, Sequence)>)
    ensures
        steps_view(r@) == steps(seq@),
    decreases seq@,
{
    proof {
        lemma_stmts_view(seq.0@);
    }
    if seq.0.len() == 0 {
        let r: Vec<(Span<Message>, Sequence)> = Vec::new();
        assert(steps_view(r@) =~= steps(seq@));
        return r;
    }
    let rest = seq_from(seq, 1);
    let ghost s = seq@;
    let ghost rv = rest@;
    assert(rv == s.subrange(1, s.len() as int));
    let mut out: Vec<(Span<Message>, Sequence)> = Vec::new();
    let first = &seq.0[0];
    assert(s[0] == stmt_view(*first));
    match first {
        Stmt::Message(m) => {
            out.push((m.clone(), copy_seq(&rest)));
            assert(steps_view(out@) =~= head_steps(s));
        },
        Stmt::Inf(b) | Stmt::Fin(b) => {
            proof {
                let bv = if s[0] is Inf {
                    s[0]->Inf_0
                } else {
                    s[0]->Fin_0
                };
                assert(bv == b@);
                assert(decreases_to!(s => s[0]));
                assert(decreases_to!(s[0] => bv));
            }
            let ts = generate_transitions(b);
            let single = Sequence(vec![copy_stmt(first)]);
            proof {
                lemma_stmts_view(single.0@);
                assert(single@ =~= seq![stmt_view(*first)]);
            }
            let tail = concat(single, &rest);
            let ghost suffix = tail@;
            let mut k: usize = 0;
            while k < ts.len()
                invariant
                    k <= ts@.len(),
                    suffix == tail@,
                    steps_view(ts@) == steps(b@),
                    steps_view(out@) == then(steps(b@).take(k as int), suffix),
                decreases ts@.len() - k,
            {
                let m = ts[k].0.clone();
                let r = concat(copy_seq(&ts[k].1), &tail);
                let ghost before = out@;
                out.push((m, r));
                assert(steps(b@)[k as int] == step_view(ts@[k as int]));
                assert(steps_view(out@) =~= steps_view(before).push(step_view((m, r))));
                assert(then(steps(b@).take(k + 1), suffix) =~= then(steps(b@).take(k as int), suffix).push(step_view((m, r))));
                k = k + 1;
            }
            assert(steps(b@).take(ts@.len() as int) =~= steps(b@));
            assert(steps_view(out@) == head_steps(s));
        },
        Stmt::Choice(bs) => {
            proof {
                lemma_seqs_view(bs.0@);
            }
            let mut j: usize = 0;
            while j < bs.0.len()
                invariant
                    s == seq@,
                    rv == rest@,
                    s.len() > 0,
                    s[0] == StmtModel::Choice(bs@),
                    j <= bs.0@.len(),
                    bs@.len() == bs.0@.len(),
                    forall|i: int| 0 <= i < bs.0@.len() ==> #[trigger] bs@[i] == bs.0@[i]@,
                    steps_view(out@) == choice_steps(bs@, j as nat, rv),
                decreases bs.0@.len() - j,
            {
                proof {
                    let bsv = s[0]->Choice_0;
                    assert(decreases_to!(s => s[0]));
                    assert(decreases_to!(s[0] => bsv));
                    assert(decreases_to!(bsv => bsv[j as int]));
                }
                let ts = generate_transitions(&bs.0[j]);
                let ghost base = out@;
                let mut k: usize = 0;
                while k < ts.len()
                    invariant
                        j < bs.0@.len(),
                        k <= ts@.len(),
                        rv == rest@,
                        steps_view(ts@) == steps(bs@[j as int]),
                        steps_view(out@) == steps_view(base) + then(steps(bs@[j as int]).take(k as int), rv),
                    decreases ts@.len() - k,
                {
                    let m = ts[k].0.clone();
                    let r = concat(copy_seq(&ts[k].1), &rest);
                    let ghost before = out@;
                    out.push((m, r));
                    assert(steps(bs@[j as int])[k as int] == step_view(ts@[k as int]));
                    assert(steps_view(out@) =~= steps_view(before).push(step_view((m, r))));
                    assert(then(steps(bs@[j as int]).take(k + 1), rv) =~= then(steps(bs@[j as int]).take(k as int), rv).push(step_view((m, r))));
                    k = k + 1;
                }
                assert(steps(bs@[j as int]).take(ts@.len() as int) =~= steps(bs@[j as int]));
                j = j + 1;
            }
            assert(steps_view(out@) == head_steps(s));
        },
        Stmt::Par(bs) => {
            proof {
                lemma_seqs_view(bs.0@);
            }
            let mut j: usize = 0;
            while j < bs.0.len()
                invariant
                    s == seq@,
                    rv == rest@,
                    s.len() > 0,
                    s[0] == StmtModel::Par(bs@),
                    j <= bs.0@.len(),
                    bs@.len() == bs.0@.len(),
                    forall|i: int| 0 <= i < bs.0@.len() ==> #[trigger] bs@[i] == bs.0@[i]@,
                    steps_view(out@) == par_steps(bs@, j as nat, rv),
                decreases bs.0@.len() - j,
            {
                proof {
                    let bsv = s[0]->Par_0;
                    assert(decreases_to!(s => s[0]));
                    assert(decreases_to!(s[0] => bsv));
                    assert(decreases_to!(bsv => bsv[j as int]));
                }
                let ts = generate_transitions(&bs.0[j]);
                let ghost base = out@;
                let ghost target = par_branch_steps(bs@, j as int, rv);
                let mut k: usize = 0;
                while k < ts.len()
                    invariant
                        j < bs.0@.len(),
                        k <= ts@.len(),
                        rv == rest@,
                        bs@.len() == bs.0@.len(),
                        forall|i: int| 0 <= i < bs.0@.len() ==> #[trigger] bs@[i] == bs.0@[i]@,
                        steps_view(ts@) == steps(bs@[j as int]),
                        target == par_branch_steps(bs@, j as int, rv),
                        target.len() == ts@.len(),
                        steps_view(out@) == steps_view(base) + target.take(k as int),
                    decreases ts@.len() - k,
                {
                    let (m, r) = (&ts[k].0, &ts[k].1);
                    let branches = replace_branch(bs, j, copy_seq(r));
                    let ghost bsv = branches@;
                    let single = Sequence(vec![Stmt::Par(branches)]);
                    proof {
                        lemma_stmts_view(single.0@);
                        assert(single@ =~= seq![StmtModel::Par(bsv)]);
                    }
                    let moved = concat(single, &rest);
                    let mc = m.clone();
                    let ghost before = out@;
                    out.push((mc, moved));
                    assert(steps(bs@[j as int])[k as int] == step_view(ts@[k as int]));
                    assert(target[k as int] == step_view((mc, moved)));
                    assert(steps_view(out@) =~= steps_view(before).push(step_view((mc, moved))));
                    assert(target.take(k + 1) =~= target.take(k as int).push(step_view((mc, moved))));
                    k = k + 1;
                }
                assert(target.take(ts@.len() as int) =~= target);
                j = j + 1;
            }
            assert(steps_view(out@) == head_steps(s));
        },
    }
    if stmt_may_terminate(first) {
        let more = generate_transitions(&rest);
        let ghost base = out@;
        let mut k: usize = 0;
        while k < more.len()
            invariant
                k <= more@.len(),
                steps_view(more@) == steps(rv),
                steps_view(out@) == steps_view(base) + steps(rv).take(k as int),
            decreases more@.len() - k,
        {
            let m = more[k].0.clone();
            let r = copy_seq(&more[k].1);
            let ghost before = out@;
            out.push((m, r));
            assert(steps(rv)[k as int] == step_view(more@[k as int]));
            assert(steps_view(out@) =~= steps_view(before).push(step_view((m, r))));
            assert(steps(rv).take(k + 1) =~= steps(rv).take(k as int).push(step_view((m, r))));
            k = k + 1;
        }
        assert(steps(rv).take(more@.len() as int) =~= steps(rv));
    } else {
        assert(steps_view(out@) =~= steps_view(out@) + Seq::<Step>::empty());
    }
    out
}

/// The branches `bs` with branch `j` replaced by `b`.
fn replace_branch(bs: &Sequences, j: usize, b: Sequence) -> (r: Sequences)
    requires
        j < bs.0@.len(),
    ensures
        r@ == bs@.update(j as int, b@),
{
    proof {
        lemma_seqs_view(bs.0@);
    }
    let ghost bv = b@;
    let mut v: Vec<Sequence> = Vec::new();
    let mut i: usize = 0;
    let mut b = Some(b);
    while i < bs.0.len()
        invariant
            i <= bs.0@.len(),
            j < bs.0@.len(),
            v@.len() == i,
            i <= j ==> b is Some && b->0@ == bv,
            forall|k: int| 0 <= k < i ==> (#[trigger] v@[k])@ == bs@.update(j as int, bv)[k],
            bs@.len() == bs.0@.len(),
            forall|k: int| 0 <= k < bs.0@.len() ==> #[trigger] bs@[k] == bs.0@[k]@,
        decreases bs.0@.len() - i,
    {
        if i == j {
            let taken = b.take();
            match taken {
                Some(x) => v.push(x),
                None => v.push(copy_seq(&bs.0[i])),
            }
        } else {
            v.push(copy_seq(&bs.0[i]));
        }
        i = i + 1;
    }
    proof {
        lemma_seqs_view(v@);
        assert(seqs_view(v@) =~= bs@.update(j as int, bv));
    }
    Sequences(v)
}

/// The first index from `i` on whose key is equivalent to `r`.
pub open spec fn find_key(keys: Seq<Seq<StmtModel>>, r: Seq<StmtModel>, i: nat) -> Option<nat>
    decreases keys.len() - i,
{
    if i >= keys.len() {
        None
    } else if seq_equiv(keys[i as int], r) {
        Some(i)
    } else {
        find_key(keys, r, i + 1)
    }
}

/// Places the steps of state `src` from step `k` on: each goes to the first
/// state whose residual sequence is equivalent to its own, or to a new state
/// for it; the transitions are appended to `acc`.
pub open spec fn place(
    keys: Seq<Seq<StmtModel>>,
    ts: Seq<Step>,
    k: nat,
    src: nat,
    acc: Seq<TransitionModel>,
) -> (Seq<Seq<StmtModel>>, Seq<TransitionModel>)
    decreases ts.len() - k,
{
    if k >= ts.len() {
        (keys, acc)
    } else {
        let t = ts[k as int];
        match find_key(keys, t.2, 0) {
            Some(d) => place(keys, ts, k + 1, src, acc.push((src, d, t.0, t.1))),
            None => place(keys.push(t.2), ts, k + 1, src, acc.push((src, keys.len(), t.0, t.1))),
        }
    }
}

/// Breadth-first discovery of states from state `k` on: `keys` holds the
/// residual sequence of each state found so far, `acc` the transitions of
/// the states before `k`. `None` when the states outgrow `MAX_STATES`.
pub open spec fn explore(
    keys: Seq<Seq<StmtModel>>,
    k: nat,
    acc: Seq<TransitionModel>,
    fuel: nat,
) -> Option<(Seq<Seq<StmtModel>>, Seq<TransitionModel>)>
    decreases fuel,
{
    if keys.len() > MAX_STATES {
        None
    } else if k >= keys.len() {
        Some((keys, acc))
    } else if fuel == 0 {
        None
    } else {
        let (keys2, acc2) = place(keys, steps(keys[k as int]), 0, k, acc);
        explore(keys2, k + 1, acc2, (fuel - 1) as nat)
    }
}

/// The state machine of a protocol body: the residual sequence of each state,
/// state 0 being the body itself, and the transitions.
pub open spec fn compiled(s: Seq<StmtModel>) -> Option<(Seq<Seq<StmtModel>>, Seq<TransitionModel>)> {
    explore(seq![s], 0, Seq::empty(), (MAX_STATES + 1) as nat)
}

proof fn lemma_place_grows(
    keys: Seq<Seq<StmtModel>>,
    ts: Seq<Step>,
    k: nat,
    src: nat,
    acc: Seq<TransitionModel>,
)
    ensures
        place(keys, ts, k, src, acc).0.len() >= keys.len(),
    decreases ts.len() - k,
{
    if k < ts.len() {
        let t = ts[k as int];
        match find_key(keys, t.2, 0) {
            Some(d) => lemma_place_grows(keys, ts, k + 1, src, acc.push((src, d, t.0, t.1))),
            None => lemma_place_grows(keys.push(t.2), ts, k + 1, src, acc.push((src, keys.len(), t.0, t.1))),
        }
    }
}

/// A protocol's name and roles, with its state machine.
#[derive(Debug)]
pub struct ProtocolStateMachine {
    pub name: String,
    pub roles: Vec<Role>,
    pub state_machine: StateMachine,
}

/// The state machines of the protocols of a file, with their spans.
#[derive(Debug)]
pub struct ProtocolFileStateMachines {
    pub protocols: Vec<Span<ProtocolStateMachine>>,
}

/// Roles of a protocol that declares none: `C`, then `S`.
pub open spec fn default_roles() -> Seq<Seq<char>> {
    seq![seq!['C'], seq!['S']]
}

pub open spec fn roles_view(v: Seq<Role>) -> Seq<Seq<char>> {
    v.map_values(|r: Role| r.0@)
}

/// The roles a protocol declares, or the default pair.
pub open spec fn protocol_roles(p: Protocol) -> Seq<Seq<char>> {
    match p.roles {
        Some(v) => roles_view(v@),
        None => default_roles(),
    }
}

/// `m` compiles the protocol body `s`: its states and transitions are those
/// that `compiled` gives.
pub open spec fn machine_of(m: StateMachine, s: Seq<StmtModel>) -> bool {
    match compiled(s) {
        Some(c) => m.count() == c.0.len() && m.trans() == c.1 && m.wf(),
        None => false,
    }
}

/// Index of the first key equivalent to `r`, if any.
fn lookup(keys: &Vec<Sequence>, r: &Sequence) -> (res: Option<usize>)
    ensures
        res matches Some(i) ==> find_key(keys@.map_values(|q: Sequence| q@), r@, 0) == Some(i as nat)
            && i < keys@.len(),
        res is None ==> find_key(keys@.map_values(|q: Sequence| q@), r@, 0) is None,
{
    let ghost kv = keys@.map_values(|q: Sequence| q@);
    let mut i: usize = 0;
    while i < keys.len()
        invariant
            i <= keys@.len(),
            kv == keys@.map_values(|q: Sequence| q@),
            find_key(kv, r@, 0) == find_key(kv, r@, i as nat),
        decreases keys@.len() - i,
    {
        if seq_equal(&keys[i], r) {
            return Some(i);
        }
        i = i + 1;
    }
    None
}

fn copy_roles(v: &Vec<Role>) -> (r: Vec<Role>)
    ensures
        roles_view(r@) == roles_view(v@),
{
    let mut r: Vec<Role> = Vec::new();
    let mut i: usize = 0;
    while i < v.len()
        invariant
            i <= v@.len(),
            r@.len() == i,
            forall|k: int| 0 <= k < i ==> (#[trigger] r@[k]).0@ == v@[k].0@,
        decreases v@.len() - i,
    {
        r.push(v[i].clone());
        i = i + 1;
    }
    assert(roles_view(r@) =~= roles_view(v@));
    r
}

/// Builds the state machine of a protocol by breadth-first discovery of its
/// residual sequences; `None` when it would need more than `MAX_STATES`
/// states.
#[verifier::rlimit(80)]
pub fn compile_protocol(protocol: &Protocol) -> (r: Option<ProtocolStateMachine>)
    ensures
        r is Some <==> compiled(protocol.seq@) is Some,
        r matches Some(m) ==> {
            &&& machine_of(m.state_machine, protocol.seq@)
            &&& m.name@ == protocol.name@
            &&& roles_view(m.roles@) == protocol_roles(*protocol)
        },
{
    let mut state_machine = StateMachine::new();
    let mut keys: Vec<Sequence> = Vec::new();
    let start = state_machine.new_state();
    keys.push(copy_seq(&protocol.seq));
    let ghost init = seq![protocol.seq@];
    assert(keys@.map_values(|q: Sequence| q@) =~= init);
    let mut k: usize = 0;
    while k < keys.len()
        invariant
            k <= keys@.len() <= MAX_STATES,
            state_machine.count() == keys@.len(),
            state_machine.wf(),
            compiled(protocol.seq@) == explore(
                keys@.map_values(|q: Sequence| q@),
                k as nat,
                state_machine.trans(),
                (MAX_STATES + 1 - k) as nat,
            ),
        decreases keys@.len() - k + 2 * (MAX_STATES - keys@.len()),
    {
        let ghost kv = keys@.map_values(|q: Sequence| q@);
        let ts = generate_transitions(&keys[k]);
        let ghost tsv = steps(kv[k as int]);
        assert(steps_view(ts@) == tsv);
        let ghost acc0 = state_machine.trans();
        let mut j: usize = 0;
        while j < ts.len()
            invariant
                k < keys@.len() <= MAX_STATES,
                k < kv.len() <= MAX_STATES,
                compiled(protocol.seq@) == explore(kv, k as nat, acc0, (MAX_STATES + 1 - k) as nat),
                state_machine.count() == keys@.len(),
                state_machine.wf(),
                steps_view(ts@) == tsv,
                tsv == steps(kv[k as int]),
                j <= ts@.len(),
                place(kv, tsv, 0, k as nat, acc0) == place(
                    keys@.map_values(|q: Sequence| q@),
                    tsv,
                    j as nat,
                    k as nat,
                    state_machine.trans(),
                ),
                kv.len() <= keys@.len(),
                keys@.map_values(|q: Sequence| q@).subrange(0, kv.len() as int) == kv,
            decreases ts@.len() - j,
        {
            let ghost kv2 = keys@.map_values(|q: Sequence| q@);
            assert(tsv[j as int] == step_view(ts@[j as int]));
            let end = match lookup(&keys, &ts[j].1) {
                Some(d) => State(d as u32),
                None => {
                    if keys.len() >= MAX_STATES as usize {
                        proof {
                            let step = tsv[j as int];
                            let acc = state_machine.trans().push((k as nat, kv2.len(), step.0, step.1));
                            lemma_place_grows(kv2.push(step.2), tsv, (j + 1) as nat, k as nat, acc);
                            let p = place(kv, tsv, 0, k as nat, acc0);
                            assert(p == place(kv2.push(step.2), tsv, (j + 1) as nat, k as nat, acc));
                            assert(p.0.len() > MAX_STATES);
                            assert(explore(p.0, (k + 1) as nat, p.1, (MAX_STATES - k) as nat) is None);
                            assert(explore(kv, k as nat, acc0, (MAX_STATES + 1 - k) as nat) == explore(
                                p.0, (k + 1) as nat, p.1, (MAX_STATES - k) as nat));
                        }
                        return None;
                    }
                    let s = state_machine.new_state();
                    keys.push(copy_seq(&ts[j].1));
                    assert(keys@.map_values(|q: Sequence| q@) =~= kv2.push(tsv[j as int].2));
                    s
                },
            };
            let t = Transition { start: State(k as u32), end, msg: ts[j].0.clone() };
            state_machine.add_transition(t);
            assert(keys@.map_values(|q: Sequence| q@).subrange(0, kv.len() as int) =~= kv);
            j = j + 1;
        }
        k = k + 1;
    }
    let roles = match &protocol.roles {
        Some(v) => copy_roles(v),
        None => {
            proof {
                reveal_strlit("C");
                reveal_strlit("S");
            }
            let mut v: Vec<Role> = Vec::new();
            v.push(Role::new(String::from_str("C")));
            v.push(Role::new(String::from_str("S")));
            assert(v@[0].0@ =~= seq!['C']);
            assert(v@[1].0@ =~= seq!['S']);
            assert(roles_view(v@) =~= default_roles());
            v
        },
    };
    Some(ProtocolStateMachine { name: protocol.name.clone(), roles, state_machine })
}

/// `m` is the compiled form of the protocol `p`.
pub open spec fn compiles_to(p: Protocol, m: ProtocolStateMachine) -> bool {
    &&& machine_of(m.state_machine, p.seq@)
    &&& m.name@ == p.name@
    &&& roles_view(m.roles@) == protocol_roles(p)
}

/// Compiles every protocol of a file, keeping each one's span; `None` when
/// some protocol needs more than `MAX_STATES` states.
#[verifier::rlimit(80)]
pub fn compile_protocol_file(file: &File) -> (r: Option<ProtocolFileStateMachines>)
    ensures
        r is Some <==> forall|i: int|
            0 <= i < file.protocols@.len() ==> compiled((#[trigger] file.protocols@[i]).inner.seq@) is Some,
        r matches Some(f) ==> {
            &&& f.protocols@.len() == file.protocols@.len()
            &&& forall|i: int|
                0 <= i < f.protocols@.len() ==> (#[trigger] f.protocols@[i]).span == file.protocols@[i].span
                    && compiles_to(file.protocols@[i].inner, f.protocols@[i].inner)
        },
{
    let mut protocols: Vec<Span<ProtocolStateMachine>> = Vec::new();
    let mut i: usize = 0;
    while i < file.protocols.len()
        invariant
            i <= file.protocols@.len(),
            protocols@.len() == i,
            forall|k: int| 0 <= k < i ==> compiled((#[trigger] file.protocols@[k]).inner.seq@) is Some,
            forall|k: int|
                0 <= k < i ==> (#[trigger] protocols@[k]).span == file.protocols@[k].span
                    && compiles_to(file.protocols@[k].inner, protocols@[k].inner),
        decreases file.protocols@.len() - i,
    {
        match compile_protocol(&file.protocols[i].inner) {
            Some(m) => protocols.push(Span { span: file.protocols[i].span, inner: m }),
            None => return None,
        }
        i = i + 1;
    }
    Some(ProtocolFileStateMachines { protocols })
}

/// Which statements may finish without sending anything: a `fin` loop
/// always, a message or an `inf` loop never, a `choice` when some branch may,
/// a `par` when every branch may.
pub proof fn termination_structure(st: StmtModel)
    ensures
        st is Fin ==> stmt_terminates(st),
        st is Inf ==> !stmt_terminates(st),
        st is Message ==> !stmt_terminates(st),
        st matches StmtModel::Choice(bs) ==> (stmt_terminates(st) <==> exists|i: int|
            0 <= i < bs.len() && seq_terminates(#[trigger] bs[i])),
        st matches StmtModel::Par(bs) ==> (stmt_terminates(st) <==> forall|i: int|
            0 <= i < bs.len() ==> seq_terminates(#[trigger] bs[i])),
{
}

/// Compilation is deterministic: two machines built from the same body have
/// the same states, numbered alike, and the same transitions in the same
/// order.
pub proof fn compile_deterministic(s: Seq<StmtModel>, m1: StateMachine, m2: StateMachine)
    requires
        machine_of(m1, s),
        machine_of(m2, s),
    ensures
        m1.count() == m2.count(),
        m1.trans() == m2.trans(),
{
}

/// No two keys are equivalent, a key before a later one.
pub open spec fn keys_distinct(keys: Seq<Seq<StmtModel>>) -> bool {
    forall|i: int, j: int| 0 <= i < j < keys.len() ==> !seq_equiv(#[trigger] keys[i], #[trigger] keys[j])
}

/// Some key is equivalent to `r`.
pub open spec fn has_key(keys: Seq<Seq<StmtModel>>, r: Seq<StmtModel>) -> bool {
    exists|j: int| 0 <= j < keys.len() && seq_equiv(#[trigger] keys[j], r)
}

/// Every step of the states before `k` leads to a known state.
pub open spec fn closed_below(keys: Seq<Seq<StmtModel>>, k: nat) -> bool {
    forall|i: int, n: int|
        0 <= i < k && 0 <= n < steps(keys[i]).len() ==> has_key(keys, #[trigger] steps(keys[i])[n].2)
}

proof fn lemma_find_key(keys: Seq<Seq<StmtModel>>, r: Seq<StmtModel>, i: nat)
    ensures
        find_key(keys, r, i) matches Some(d) ==> i <= d < keys.len() && seq_equiv(keys[d as int], r),
        find_key(keys, r, i) is None ==> forall|j: int| i <= j < keys.len() ==> !seq_equiv(#[trigger] keys[j], r),
    decreases keys.len() - i,
{
    if i < keys.len() && !seq_equiv(keys[i as int], r) {
        lemma_find_key(keys, r, i + 1);
    }
}

proof fn lemma_has_key_extend(keys: Seq<Seq<StmtModel>>, more: Seq<Seq<StmtModel>>, r: Seq<StmtModel>)
    requires
        has_key(keys, r),
    ensures
        has_key(keys + more, r),
{
    let j = choose|j: int| 0 <= j < keys.len() && seq_equiv(#[trigger] keys[j], r);
    assert((keys + more)[j] == keys[j]);
}

proof fn lemma_place(
    keys: Seq<Seq<StmtModel>>,
    ts: Seq<Step>,
    k: nat,
    src: nat,
    acc: Seq<TransitionModel>,
)
    requires
        keys_distinct(keys),
        forall|n: int| 0 <= n < k && n < ts.len() ==> has_key(keys, #[trigger] ts[n].2),
    ensures
        ({
            let res = place(keys, ts, k, src, acc).0;
            &&& keys_distinct(res)
            &&& res.len() >= keys.len()
            &&& res.subrange(0, keys.len() as int) == keys
            &&& forall|n: int| 0 <= n < ts.len() ==> has_key(res, #[trigger] ts[n].2)
        }),
    decreases ts.len() - k,
{
    if k >= ts.len() {
        assert(keys.subrange(0, keys.len() as int) =~= keys);
    } else {
        let t = ts[k as int];
        lemma_find_key(keys, t.2, 0);
        match find_key(keys, t.2, 0) {
            Some(d) => {
                lemma_place(keys, ts, k + 1, src, acc.push((src, d, t.0, t.1)));
            },
            None => {
                let k2 = keys.push(t.2);
                assert(keys_distinct(k2)) by {
                    assert forall|i: int, j: int| 0 <= i < j < k2.len() implies !seq_equiv(#[trigger] k2[i], #[trigger] k2[j]) by {
                        if j < keys.len() {
                            assert(k2[i] == keys[i] && k2[j] == keys[j]);
                        } else {
                            assert(k2[i] == keys[i]);
                        }
                    }
                }
                assert forall|n: int| 0 <= n < k + 1 && n < ts.len() implies has_key(k2, #[trigger] ts[n].2) by {
                    if n < k {
                        lemma_has_key_extend(keys, seq![t.2], ts[n].2);
                        assert(keys + seq![t.2] =~= k2);
                    } else {
                        assert(k2[keys.len() as int] == t.2);
                        crate::ast::lemma_seq_equiv_refl(t.2);
                    }
                }
                lemma_place(k2, ts, k + 1, src, acc.push((src, keys.len(), t.0, t.1)));
                let res = place(k2, ts, k + 1, src, acc.push((src, keys.len(), t.0, t.1))).0;
                assert(res.subrange(0, keys.len() as int) =~= res.subrange(0, k2.len() as int).subrange(0, keys.len() as int));
            },
        }
    }
}

proof fn lemma_explore(keys: Seq<Seq<StmtModel>>, k: nat, acc: Seq<TransitionModel>, fuel: nat)
    requires
        keys_distinct(keys),
        k <= keys.len(),
        closed_below(keys, k),
    ensures
        explore(keys, k, acc, fuel) matches Some(res) ==> keys_distinct(res.0) && closed_below(res.0, res.0.len())
            && res.0.len() >= keys.len() && res.0.subrange(0, keys.len() as int) == keys,
    decreases fuel,
{
    if keys.len() > MAX_STATES {
    } else if k >= keys.len() {
        assert(keys.subrange(0, keys.len() as int) =~= keys);
    } else if fuel == 0 {
    } else {
        let ts = steps(keys[k as int]);
        lemma_place(keys, ts, 0, k, acc);
        let (keys2, acc2) = place(keys, ts, 0, k, acc);
        assert forall|i: int, n: int| 0 <= i < k + 1 && 0 <= n < steps(keys2[i]).len() implies has_key(keys2, #[trigger] steps(keys2[i])[n].2) by {
            assert(keys2[i] == keys2.subrange(0, keys.len() as int)[i]);
            if i < k {
                let more = keys2.subrange(keys.len() as int, keys2.len() as int);
                assert(keys2 =~= keys + more);
                lemma_has_key_extend(keys, more, steps(keys[i])[n].2);
            }
        }
        lemma_explore(keys2, k + 1, acc2, (fuel - 1) as nat);
        match explore(keys2, k + 1, acc2, (fuel - 1) as nat) {
            Some(res) => {
                assert(res.0.subrange(0, keys.len() as int) =~= res.0.subrange(0, keys2.len() as int).subrange(0, keys.len() as int));
            },
            None => {},
        }
    }
}

/// State `k`'s residual is what remains after some message of an earlier
/// state.
pub open spec fn reached(keys: Seq<Seq<StmtModel>>, k: int) -> bool {
    exists|i: int, n: int|
        0 <= i < k && 0 <= n < steps(keys[i]).len() && #[trigger] steps(keys[i])[n].2 == keys[k]
}

/// Every state but the first is reached from an earlier one.
pub open spec fn all_reached(keys: Seq<Seq<StmtModel>>) -> bool {
    forall|k: int| 1 <= k < keys.len() ==> #[trigger] reached(keys, k)
}

proof fn lemma_reached_prefix(keys: Seq<Seq<StmtModel>>, more: Seq<Seq<StmtModel>>)
    requires
        all_reached(keys),
    ensures
        forall|k: int| 1 <= k < keys.len() ==> #[trigger] reached(keys + more, k),
{
    assert forall|k: int| 1 <= k < keys.len() implies #[trigger] reached(keys + more, k) by {
        assert(reached(keys, k));
        let (i, n) = choose|i: int, n: int|
            0 <= i < k && 0 <= n < steps(keys[i]).len() && #[trigger] steps(keys[i])[n].2 == keys[k];
        assert((keys + more)[i] == keys[i]);
        assert((keys + more)[k] == keys[k]);
        assert(steps((keys + more)[i])[n].2 == (keys + more)[k]);
    }
}

proof fn lemma_place_reached(
    keys: Seq<Seq<StmtModel>>,
    ts: Seq<Step>,
    k: nat,
    src: nat,
    acc: Seq<TransitionModel>,
)
    requires
        all_reached(keys),
        src < keys.len(),
        ts == steps(keys[src as int]),
    ensures
        all_reached(place(keys, ts, k, src, acc).0),
        place(keys, ts, k, src, acc).0.len() >= keys.len(),
        place(keys, ts, k, src, acc).0.subrange(0, keys.len() as int) == keys,
    decreases ts.len() - k,
{
    if k >= ts.len() {
        assert(keys.subrange(0, keys.len() as int) =~= keys);
    } else {
        let t = ts[k as int];
        match find_key(keys, t.2, 0) {
            Some(d) => {
                lemma_place_reached(keys, ts, k + 1, src, acc.push((src, d, t.0, t.1)));
            },
            None => {
                let k2 = keys.push(t.2);
                lemma_reached_prefix(keys, seq![t.2]);
                assert(keys + seq![t.2] =~= k2);
                assert(k2[src as int] == keys[src as int]);
                assert(reached(k2, keys.len() as int)) by {
                    assert(steps(k2[src as int])[k as int].2 == k2[keys.len() as int]);
                }
                assert(all_reached(k2));
                lemma_place_reached(k2, ts, k + 1, src, acc.push((src, keys.len(), t.0, t.1)));
                let res = place(k2, ts, k + 1, src, acc.push((src, keys.len(), t.0, t.1))).0;
                assert(res.subrange(0, keys.len() as int) =~= res.subrange(0, k2.len() as int).subrange(0, keys.len() as int));
            },
        }
    }
}

proof fn lemma_explore_reached(keys: Seq<Seq<StmtModel>>, k: nat, acc: Seq<TransitionModel>, fuel: nat)
    requires
        all_reached(keys),
        k <= keys.len(),
    ensures
        explore(keys, k, acc, fuel) matches Some(res) ==> all_reached(res.0),
    decreases fuel,
{
    if keys.len() > MAX_STATES {
    } else if k >= keys.len() {
    } else if fuel == 0 {
    } else {
        let ts = steps(keys[k as int]);
        lemma_place_reached(keys, ts, 0, k, acc);
        let (keys2, acc2) = place(keys, ts, 0, k, acc);
        lemma_explore_reached(keys2, k + 1, acc2, (fuel - 1) as nat);
    }
}

/// The states of a compiled body are its canonical residual sequences: state
/// 0 is the body, every other state's residual remains after a message of
/// an earlier state, no two states have equivalent residuals, and every
/// message that a state's residual may send leads to a state whose residual
/// is equivalent to what remains. So the states are as many as the distinct
/// residuals reachable from the body.
pub proof fn states_are_distinct_residuals(s: Seq<StmtModel>)
    requires
        compiled(s) is Some,
    ensures
        ({
            let c = compiled(s)->0;
            let keys = c.0;
            &&& keys.len() >= 1
            &&& keys[0] == s
            &&& keys_distinct(keys)
            &&& closed_below(keys, keys.len())
            &&& all_reached(keys)
        }),
{
    let init = seq![s];
    lemma_explore(init, 0, Seq::empty(), (MAX_STATES + 1) as nat);
    lemma_explore_reached(init, 0, Seq::empty(), (MAX_STATES + 1) as nat);
    let c = compiled(s)->0;
    let keys = c.0;
    assert(keys.subrange(0, 1)[0] == keys[0]);
}

} // verus!
