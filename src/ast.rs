//! The syntax tree of protocol files, and its mathematical model.
use vstd::prelude::*;

use crate::generate::{int_text, push_int_type};
use crate::parser::{RawSpan, Span};
use crate::text::{decimal, join, joined, push_decimal, push_str, push_string, strings_view};

verus! {

/// A named endpoint of a protocol.
#[derive(Debug, PartialEq, Eq, Hash)]
pub struct Role(pub String);

/// Width of an integer type.
#[derive(Debug, Clone, Copy, PartialEq, Eq, Hash, Structural)]
pub enum IntSize {
    B64,
    B32,
    B16,
    B8,
}

/// One of the eight integer types.
#[derive(Debug, Clone, Copy, PartialEq, Eq, Hash, Structural)]
pub struct IntType {
    pub signed: bool,
    pub size: IntSize,
}

/// The type of a payload item or a struct field.
#[derive(Debug, PartialEq, Eq, Hash)]
pub enum Type {
    Bool,
    Int(IntType),
    Array(Box<Type>, Option<u64>),
    Struct(String),
}

/// Model of a `Type`.
pub enum TypeModel {
    Bool,
    Int(IntType),
    Array(Box<TypeModel>, Option<u64>),
    Struct(Seq<char>),
}

pub open spec fn type_view(t: Type) -> TypeModel
    decreases t,
{
    match t {
        Type::Bool => TypeModel::Bool,
        Type::Int(i) => TypeModel::Int(i),
        Type::Array(b, n) => TypeModel::Array(Box::new(type_view(*b)), n),
        Type::Struct(s) => TypeModel::Struct(s@),
    }
}

impl Role {
    /// A role of the given name.
    pub fn new(name: String) -> (r: Role)
        ensures
            r.0@ == name@,
    {
        Role(name)
    }
}

impl Clone for Role {
    fn clone(&self) -> (r: Self)
        ensures
            r.0@ == self.0@,
    {
        Role(self.0.clone())
    }
}

impl Clone for Type {
    fn clone(&self) -> (r: Self)
        ensures
            type_view(r) == type_view(*self),
        decreases self,
    {
        match self {
            Type::Bool => Type::Bool,
            Type::Int(i) => Type::Int(*i),
            Type::Array(b, n) => {
                let inner: Type = (**b).clone();
                Type::Array(Box::new(inner), *n)
            },
            Type::Struct(s) => Type::Struct(s.clone()),
        }
    }
}

/// An item of a message payload: an optional name and a type.
#[derive(Debug, PartialEq, Eq, Hash)]
pub struct PayloadItem {
    pub name: Option<String>,
    pub ty: Type,
}

/// The typed items that a message carries.
#[derive(Debug, PartialEq, Eq, Hash)]
pub struct Payload {
    pub items: Vec<PayloadItem>,
}

/// A message: its label, payload and the roles that send and receive it.
#[derive(Debug, PartialEq, Eq, Hash)]
pub struct Message {
    pub label: String,
    pub payload: Payload,
    pub from: Role,
    pub to: Role,
}

/// Model of a payload item.
pub struct ItemModel {
    pub name: Option<Seq<char>>,
    pub ty: TypeModel,
}

/// Model of a message.
pub struct MessageModel {
    pub label: Seq<char>,
    pub payload: Seq<ItemModel>,
    pub from: Seq<char>,
    pub to: Seq<char>,
}

pub open spec fn opt_str_view(o: Option<String>) -> Option<Seq<char>> {
    match o {
        Some(s) => Some(s@),
        None => None,
    }
}

pub open spec fn item_view(it: PayloadItem) -> ItemModel {
    ItemModel { name: opt_str_view(it.name), ty: type_view(it.ty) }
}

impl View for Message {
    type V = MessageModel;

    open spec fn view(&self) -> MessageModel {
        MessageModel {
            label: self.label@,
            payload: self.payload.items@.map_values(|it: PayloadItem| item_view(it)),
            from: self.from.0@,
            to: self.to.0@,
        }
    }
}

impl Payload {
    /// A payload with no items.
    pub fn empty() -> (r: Payload)
        ensures
            r.items@.len() == 0,
    {
        Payload { items: Vec::new() }
    }
}

impl Clone for PayloadItem {
    fn clone(&self) -> (r: Self)
        ensures
            item_view(r) == item_view(*self),
    {
        let name = match &self.name {
            Some(n) => Some(n.clone()),
            None => None,
        };
        PayloadItem { name, ty: self.ty.clone() }
    }
}

impl Clone for Payload {
    fn clone(&self) -> (r: Self)
        ensures
            r.items@.map_values(|it: PayloadItem| item_view(it)) == self.items@.map_values(
                |it: PayloadItem| item_view(it),
            ),
    {
        let mut items: Vec<PayloadItem> = Vec::new();
        let mut i: usize = 0;
        while i < self.items.len()
            invariant
                i <= self.items@.len(),
                items@.len() == i,
                forall|k: int| 0 <= k < i ==> item_view(#[trigger] items@[k]) == item_view(self.items@[k]),
            decreases self.items@.len() - i,
        {
            items.push(self.items[i].clone());
            i = i + 1;
        }
        let r = Payload { items };
        assert(r.items@.map_values(|it: PayloadItem| item_view(it)) =~= self.items@.map_values(
            |it: PayloadItem| item_view(it),
        ));
        r
    }
}

impl Clone for Message {
    fn clone(&self) -> (r: Self)
        ensures
            r@ == self@,
    {
        let r = Message {
            label: self.label.clone(),
            payload: self.payload.clone(),
            from: self.from.clone(),
            to: self.to.clone(),
        };
        assert(r@.payload == self@.payload);
        r
    }
}

impl Clone for Span<Message> {
    fn clone(&self) -> (r: Self)
        ensures
            r.span == self.span,
            r.inner@ == self.inner@,
    {
        Span { span: self.span, inner: self.inner.clone() }
    }
}

/// A sequence of statements: the body of a protocol or of a block.
#[derive(Debug)]
pub struct Sequence(pub Vec<Stmt>);

/// A statement of a protocol body.
#[derive(Debug, PartialEq)]
pub enum Stmt {
    Message(Span<Message>),
    Par(Sequences),
    Choice(Sequences),
    Fin(Sequence),
    Inf(Sequence),
}

/// The branches of a `par` or a `choice`, compared as a set.
#[derive(Debug)]
pub struct Sequences(pub Vec<Sequence>);

/// Model of a statement.
pub enum StmtModel {
    Message(RawSpan, MessageModel),
    Par(Seq<Seq<StmtModel>>),
    Choice(Seq<Seq<StmtModel>>),
    Fin(Seq<StmtModel>),
    Inf(Seq<StmtModel>),
}

pub open spec fn stmt_view(st: Stmt) -> StmtModel
    decreases st,
{
    match st {
        Stmt::Message(m) => StmtModel::Message(m.span, m.inner@),
        Stmt::Par(bs) => StmtModel::Par(seqs_view(bs.0@)),
        Stmt::Choice(bs) => StmtModel::Choice(seqs_view(bs.0@)),
        Stmt::Fin(q) => StmtModel::Fin(stmts_view(q.0@)),
        Stmt::Inf(q) => StmtModel::Inf(stmts_view(q.0@)),
    }
}

pub open spec fn stmts_view(v: Seq<Stmt>) -> Seq<StmtModel>
    decreases v,
{
    if v.len() == 0 {
        Seq::empty()
    } else {
        stmts_view(v.subrange(0, v.len() - 1)).push(stmt_view(v[v.len() - 1]))
    }
}

pub open spec fn seqs_view(v: Seq<Sequence>) -> Seq<Seq<StmtModel>>
    decreases v,
{
    if v.len() == 0 {
        Seq::empty()
    } else {
        seqs_view(v.subrange(0, v.len() - 1)).push(stmts_view(v[v.len() - 1].0@))
    }
}

impl View for Sequence {
    type V = Seq<StmtModel>;

    open spec fn view(&self) -> Seq<StmtModel> {
        stmts_view(self.0@)
    }
}

impl View for Sequences {
    type V = Seq<Seq<StmtModel>>;

    open spec fn view(&self) -> Seq<Seq<StmtModel>> {
        seqs_view(self.0@)
    }
}

pub proof fn lemma_stmts_view(v: Seq<Stmt>)
    ensures
        stmts_view(v).len() == v.len(),
        forall|i: int| 0 <= i < v.len() ==> #[trigger] stmts_view(v)[i] == stmt_view(v[i]),
    decreases v.len(),
{
    if v.len() > 0 {
        lemma_stmts_view(v.subrange(0, v.len() - 1));
    }
}

pub proof fn lemma_seqs_view(v: Seq<Sequence>)
    ensures
        seqs_view(v).len() == v.len(),
        forall|i: int| 0 <= i < v.len() ==> #[trigger] seqs_view(v)[i] == stmts_view(v[i].0@),
    decreases v.len(),
{
    if v.len() > 0 {
        lemma_seqs_view(v.subrange(0, v.len() - 1));
    }
}


/// Two residual sequences denote the same protocol state: statements agree
/// one by one, messages by label and roles alone, and the branches of `par`
/// and `choice` as sets.
pub open spec fn seq_equiv(a: Seq<StmtModel>, b: Seq<StmtModel>) -> bool
    decreases a, 0nat,
{
    a.len() == b.len() && forall|i: int| #![trigger a[i]] 0 <= i < a.len() ==> stmt_equiv(a[i], b[i])
}

/// Some branch of `bs` is equivalent to `x`.
pub open spec fn equiv_in(x: Seq<StmtModel>, bs: Seq<Seq<StmtModel>>) -> bool
    decreases x, 1nat,
{
    exists|j: int| #![trigger bs[j]] 0 <= j < bs.len() && seq_equiv(x, bs[j])
}

/// Some branch of `as_` is equivalent to `y`.
pub open spec fn equiv_from(as_: Seq<Seq<StmtModel>>, y: Seq<StmtModel>) -> bool
    decreases as_, 0nat,
{
    exists|i: int| #![trigger as_[i]] 0 <= i < as_.len() && seq_equiv(as_[i], y)
}

/// Two sets of branches are equal as sets of protocol states.
pub open spec fn branches_equiv(a: Seq<Seq<StmtModel>>, b: Seq<Seq<StmtModel>>) -> bool
    decreases a, 1nat,
{
    &&& forall|i: int| #![trigger a[i]] 0 <= i < a.len() ==> equiv_in(a[i], b)
    &&& forall|j: int| #![trigger b[j]] 0 <= j < b.len() ==> equiv_from(a, b[j])
}

pub open spec fn stmt_equiv(a: StmtModel, b: StmtModel) -> bool
    decreases a, 0nat,
{
    match a {
        StmtModel::Message(_, m) => match b {
            StmtModel::Message(_, m2) => m.label == m2.label && m.from == m2.from && m.to == m2.to,
            _ => false,
        },
        StmtModel::Par(x) => match b {
            StmtModel::Par(y) => branches_equiv(x, y),
            _ => false,
        },
        StmtModel::Choice(x) => match b {
            StmtModel::Choice(y) => branches_equiv(x, y),
            _ => false,
        },
        StmtModel::Fin(x) => match b {
            StmtModel::Fin(y) => seq_equiv(x, y),
            _ => false,
        },
        StmtModel::Inf(x) => match b {
            StmtModel::Inf(y) => seq_equiv(x, y),
            _ => false,
        },
    }
}

/// Whether two sequences are equal as protocol states.
#[verifier::rlimit(80)]
pub fn seq_equal(a: &Sequence, b: &Sequence) -> (r: bool)
    ensures
        r == seq_equiv(a@, b@),
    decreases a,
{
    proof {
        lemma_stmts_view(a.0@);
        lemma_stmts_view(b.0@);
    }
    if a.0.len() != b.0.len() {
        return false;
    }
    let mut i: usize = 0;
    while i < a.0.len()
        invariant
            a.0@.len() == b.0@.len(),
            stmts_view(a.0@).len() == a.0@.len(),
            stmts_view(b.0@).len() == b.0@.len(),
            forall|k: int| 0 <= k < a.0@.len() ==> #[trigger] stmts_view(a.0@)[k] == stmt_view(a.0@[k]),
            forall|k: int| 0 <= k < b.0@.len() ==> #[trigger] stmts_view(b.0@)[k] == stmt_view(b.0@[k]),
            i <= a.0@.len(),
            forall|k: int| 0 <= k < i ==> stmt_equiv(#[trigger] a@[k], b@[k]),
        decreases a.0@.len() - i,
    {
        if !stmt_equal(&a.0[i], &b.0[i]) {
            assert(!stmt_equiv(a@[i as int], b@[i as int]));
            assert(!seq_equiv(a@, b@));
            return false;
        }
        i = i + 1;
    }
    true
}

/// Whether two sets of branches are equal as sets of protocol states.
#[verifier::rlimit(80)]
pub fn branches_equal(a: &Sequences, b: &Sequences) -> (r: bool)
    ensures
        r == branches_equiv(a@, b@),
    decreases a,
{
    proof {
        lemma_seqs_view(a.0@);
        lemma_seqs_view(b.0@);
    }
    let mut i: usize = 0;
    while i < a.0.len()
        invariant
            seqs_view(a.0@).len() == a.0@.len(),
            seqs_view(b.0@).len() == b.0@.len(),
            forall|k: int| 0 <= k < a.0@.len() ==> #[trigger] seqs_view(a.0@)[k] == stmts_view(a.0@[k].0@),
            forall|k: int| 0 <= k < b.0@.len() ==> #[trigger] seqs_view(b.0@)[k] == stmts_view(b.0@[k].0@),
            i <= a.0@.len(),
            forall|k: int|
                #![trigger a@[k]]
                0 <= k < i ==> equiv_in(a@[k], b@),
        decreases a.0@.len() - i,
    {
        let mut j: usize = 0;
        let mut found = false;
        while j < b.0.len() && !found
            invariant
                i < a.0@.len(),
                seqs_view(a.0@).len() == a.0@.len(),
                seqs_view(b.0@).len() == b.0@.len(),
                forall|k: int| 0 <= k < a.0@.len() ==> #[trigger] seqs_view(a.0@)[k] == stmts_view(a.0@[k].0@),
                forall|k: int| 0 <= k < b.0@.len() ==> #[trigger] seqs_view(b.0@)[k] == stmts_view(b.0@[k].0@),
                j <= b.0@.len(),
                found ==> equiv_in(a@[i as int], b@),
                !found ==> forall|j2: int| #![trigger b@[j2]] 0 <= j2 < j ==> !seq_equiv(a@[i as int], b@[j2]),
            decreases b.0@.len() - j + (if found { 0int } else { 1int }),
        {
            if seq_equal(&a.0[i], &b.0[j]) {
                assert(seq_equiv(a@[i as int], b@[j as int]));
                found = true;
            } else {
                j = j + 1;
            }
        }
        if !found {
            assert(!equiv_in(a@[i as int], b@));
            assert(0 <= i < a@.len());
            assert(!branches_equiv(a@, b@));
            return false;
        }
        i = i + 1;
    }
    let mut j: usize = 0;
    while j < b.0.len()
        invariant
            seqs_view(a.0@).len() == a.0@.len(),
            seqs_view(b.0@).len() == b.0@.len(),
            forall|k: int| 0 <= k < a.0@.len() ==> #[trigger] seqs_view(a.0@)[k] == stmts_view(a.0@[k].0@),
            forall|k: int| 0 <= k < b.0@.len() ==> #[trigger] seqs_view(b.0@)[k] == stmts_view(b.0@[k].0@),
            j <= b.0@.len(),
            forall|k: int|
                #![trigger a@[k]]
                0 <= k < a@.len() ==> equiv_in(a@[k], b@),
            forall|k: int|
                #![trigger b@[k]]
                0 <= k < j ==> equiv_from(a@, b@[k]),
        decreases b.0@.len() - j,
    {
        let mut i: usize = 0;
        let mut found = false;
        while i < a.0.len() && !found
            invariant
                j < b.0@.len(),
                seqs_view(a.0@).len() == a.0@.len(),
                seqs_view(b.0@).len() == b.0@.len(),
                forall|k: int| 0 <= k < a.0@.len() ==> #[trigger] seqs_view(a.0@)[k] == stmts_view(a.0@[k].0@),
                forall|k: int| 0 <= k < b.0@.len() ==> #[trigger] seqs_view(b.0@)[k] == stmts_view(b.0@[k].0@),
                i <= a.0@.len(),
                found ==> equiv_from(a@, b@[j as int]),
                !found ==> forall|i2: int| #![trigger a@[i2]] 0 <= i2 < i ==> !seq_equiv(a@[i2], b@[j as int]),
            decreases a.0@.len() - i + (if found { 0int } else { 1int }),
        {
            if seq_equal(&a.0[i], &b.0[j]) {
                assert(seq_equiv(a@[i as int], b@[j as int]));
                found = true;
            } else {
                i = i + 1;
            }
        }
        if !found {
            assert(!equiv_from(a@, b@[j as int]));
            return false;
        }
        j = j + 1;
    }
    true
}

/// Whether two statements are equal as protocol states.
pub fn stmt_equal(a: &Stmt, b: &Stmt) -> (r: bool)
    ensures
        r == stmt_equiv(stmt_view(*a), stmt_view(*b)),
    decreases a,
{
    match (a, b) {
        (Stmt::Message(m), Stmt::Message(m2)) => m.inner.label == m2.inner.label
            && m.inner.from.0 == m2.inner.from.0 && m.inner.to.0 == m2.inner.to.0,
        (Stmt::Par(x), Stmt::Par(y)) => branches_equal(x, y),
        (Stmt::Choice(x), Stmt::Choice(y)) => branches_equal(x, y),
        (Stmt::Fin(x), Stmt::Fin(y)) => seq_equal(x, y),
        (Stmt::Inf(x), Stmt::Inf(y)) => seq_equal(x, y),
        _ => false,
    }
}

impl PartialEq for Sequence {
    fn eq(&self, other: &Sequence) -> (r: bool) {
        seq_equal(self, other)
    }
}

impl vstd::std_specs::cmp::PartialEqSpecImpl for Sequence {
    open spec fn obeys_eq_spec() -> bool {
        true
    }

    open spec fn eq_spec(&self, other: &Sequence) -> bool {
        seq_equiv(self@, other@)
    }
}

impl PartialEq for Sequences {
    fn eq(&self, other: &Sequences) -> (r: bool) {
        branches_equal(self, other)
    }
}

impl vstd::std_specs::cmp::PartialEqSpecImpl for Sequences {
    open spec fn obeys_eq_spec() -> bool {
        true
    }

    open spec fn eq_spec(&self, other: &Sequences) -> bool {
        branches_equiv(self@, other@)
    }
}

impl PartialEq for Span<Message> {
    fn eq(&self, other: &Span<Message>) -> (r: bool) {
        self.inner.label == other.inner.label && self.inner.from.0 == other.inner.from.0
            && self.inner.to.0 == other.inner.to.0
    }
}

impl vstd::std_specs::cmp::PartialEqSpecImpl for Span<Message> {
    open spec fn obeys_eq_spec() -> bool {
        true
    }

    open spec fn eq_spec(&self, other: &Span<Message>) -> bool {
        self.inner@.label == other.inner@.label && self.inner@.from == other.inner@.from
            && self.inner@.to == other.inner@.to
    }
}

pub proof fn lemma_stmts_view_ext(v: Seq<Stmt>, w: Seq<Stmt>)
    requires
        v.len() == w.len(),
        forall|k: int| 0 <= k < v.len() ==> stmt_view(#[trigger] v[k]) == stmt_view(w[k]),
    ensures
        stmts_view(v) == stmts_view(w),
{
    lemma_stmts_view(v);
    lemma_stmts_view(w);
    assert(stmts_view(v) =~= stmts_view(w));
}

pub proof fn lemma_seqs_view_ext(v: Seq<Sequence>, w: Seq<Sequence>)
    requires
        v.len() == w.len(),
        forall|k: int| 0 <= k < v.len() ==> (#[trigger] v[k])@ == w[k]@,
    ensures
        seqs_view(v) == seqs_view(w),
{
    lemma_seqs_view(v);
    lemma_seqs_view(w);
    assert(seqs_view(v) =~= seqs_view(w));
}

/// A copy of a sequence.
pub fn copy_seq(s: &Sequence) -> (r: Sequence)
    ensures
        r@ == s@,
    decreases s,
{
    let mut v: Vec<Stmt> = Vec::new();
    let mut i: usize = 0;
    while i < s.0.len()
        invariant
            i <= s.0@.len(),
            v@.len() == i,
            forall|k: int| 0 <= k < i ==> stmt_view(#[trigger] v@[k]) == stmt_view(s.0@[k]),
        decreases s.0@.len() - i,
    {
        v.push(copy_stmt(&s.0[i]));
        i = i + 1;
    }
    proof {
        lemma_stmts_view_ext(v@, s.0@);
    }
    Sequence(v)
}

/// A copy of a set of branches.
pub fn copy_branches(s: &Sequences) -> (r: Sequences)
    ensures
        r@ == s@,
    decreases s,
{
    let mut v: Vec<Sequence> = Vec::new();
    let mut i: usize = 0;
    while i < s.0.len()
        invariant
            i <= s.0@.len(),
            v@.len() == i,
            forall|k: int| 0 <= k < i ==> (#[trigger] v@[k])@ == s.0@[k]@,
        decreases s.0@.len() - i,
    {
        v.push(copy_seq(&s.0[i]));
        i = i + 1;
    }
    proof {
        lemma_seqs_view_ext(v@, s.0@);
    }
    Sequences(v)
}

/// A copy of a statement.
pub fn copy_stmt(s: &Stmt) -> (r: Stmt)
    ensures
        stmt_view(r) == stmt_view(*s),
    decreases s,
{
    match s {
        Stmt::Message(m) => Stmt::Message(m.clone()),
        Stmt::Par(bs) => Stmt::Par(copy_branches(bs)),
        Stmt::Choice(bs) => Stmt::Choice(copy_branches(bs)),
        Stmt::Fin(q) => Stmt::Fin(copy_seq(q)),
        Stmt::Inf(q) => Stmt::Inf(copy_seq(q)),
    }
}

impl Clone for Sequence {
    fn clone(&self) -> (r: Self)
        ensures
            r@ == self@,
    {
        copy_seq(self)
    }
}

impl Clone for Sequences {
    fn clone(&self) -> (r: Self)
        ensures
            r@ == self@,
    {
        copy_branches(self)
    }
}

impl Clone for Stmt {
    fn clone(&self) -> (r: Self)
        ensures
            stmt_view(r) == stmt_view(*self),
    {
        copy_stmt(self)
    }
}

/// A protocol definition: its name, the roles it declares, if any, and its body.
#[derive(Debug, PartialEq)]
pub struct Protocol {
    pub name: String,
    pub roles: Option<Vec<Role>>,
    pub seq: Sequence,
}

/// A struct definition: its name and its fields in wire order.
#[derive(Debug, PartialEq)]
pub struct Struct {
    pub name: String,
    pub fields: Vec<(String, Type)>,
}

/// A parsed file: its protocols and its structs.
#[derive(Debug)]
pub struct File {
    pub protocols: Vec<Span<Protocol>>,
    pub structs: Vec<Span<Struct>>,
}

/// Equivalence of residual sequences is reflexive.
pub proof fn lemma_seq_equiv_refl(a: Seq<StmtModel>)
    ensures
        seq_equiv(a, a),
    decreases a, 0nat,
{
    assert forall|i: int| 0 <= i < a.len() implies stmt_equiv(#[trigger] a[i], a[i]) by {
        lemma_stmt_equiv_refl(a[i]);
    }
}

pub proof fn lemma_stmt_equiv_refl(a: StmtModel)
    ensures
        stmt_equiv(a, a),
    decreases a, 0nat,
{
    match a {
        StmtModel::Message(_, _) => {},
        StmtModel::Par(x) => lemma_branches_equiv_refl(x),
        StmtModel::Choice(x) => lemma_branches_equiv_refl(x),
        StmtModel::Fin(x) => lemma_seq_equiv_refl(x),
        StmtModel::Inf(x) => lemma_seq_equiv_refl(x),
    }
}

pub proof fn lemma_branches_equiv_refl(a: Seq<Seq<StmtModel>>)
    ensures
        branches_equiv(a, a),
    decreases a, 1nat,
{
    assert forall|i: int| 0 <= i < a.len() implies equiv_in(#[trigger] a[i], a) by {
        lemma_seq_equiv_refl(a[i]);
    }
    assert forall|j: int| 0 <= j < a.len() implies equiv_from(a, #[trigger] a[j]) by {
        lemma_seq_equiv_refl(a[j]);
    }
}

/// Source text of a type.
pub open spec fn type_source(t: TypeModel) -> Seq<char>
    decreases t,
{
    match t {
        TypeModel::Bool => "bool"@,
        TypeModel::Int(i) => int_text(i),
        TypeModel::Array(b, Some(n)) => type_source(*b) + "["@ + decimal(n as nat) + "]"@,
        TypeModel::Array(b, None) => type_source(*b) + "[]"@,
        TypeModel::Struct(n) => "struct "@ + n,
    }
}

/// Source text of a payload item.
pub open spec fn item_source(it: ItemModel) -> Seq<char> {
    match it.name {
        Some(n) => n + ": "@ + type_source(it.ty),
        None => type_source(it.ty),
    }
}

/// Source text of a message.
pub open spec fn message_source(m: MessageModel) -> Seq<char> {
    m.label + (if m.payload.len() > 0 {
        "("@ + joined(m.payload.map_values(|it: ItemModel| item_source(it)), ", "@) + ")"@
    } else {
        Seq::empty()
    }) + " from "@ + m.from + " to "@ + m.to + ";"@
}

impl Type {
    /// Appends the source text of the type.
    pub fn push_source(&self, out: &mut String)
        ensures
            final(out)@ == old(out)@ + type_source(type_view(*self)),
        decreases self,
    {
        let ghost start = out@;
        match self {
            Type::Bool => push_str(out, "bool"),
            Type::Int(i) => push_int_type(out, *i),
            Type::Array(b, Some(n)) => {
                b.push_source(out);
                push_str(out, "[");
                push_decimal(out, *n);
                push_str(out, "]");
            },
            Type::Array(b, None) => {
                b.push_source(out);
                push_str(out, "[]");
            },
            Type::Struct(n) => {
                push_str(out, "struct ");
                push_string(out, n);
            },
        }
        assert(out@ =~= start + type_source(type_view(*self)));
    }
}

impl PayloadItem {
    /// The source text of the item.
    pub fn to_source(&self) -> (r: String)
        ensures
            r@ == item_source(item_view(*self)),
    {
        let mut out = String::new();
        if let Some(n) = &self.name {
            push_string(&mut out, n);
            push_str(&mut out, ": ");
        }
        self.ty.push_source(&mut out);
        assert(out@ =~= item_source(item_view(*self)));
        out
    }
}

impl Message {
    /// The source text of the message, as the parser reads it.
    pub fn to_source(&self) -> (r: String)
        ensures
            r@ == message_source(self@),
    {
        let mut out = String::new();
        push_string(&mut out, &self.label);
        if self.payload.items.len() > 0 {
            let mut items: Vec<String> = Vec::new();
            let mut i: usize = 0;
            while i < self.payload.items.len()
                invariant
                    i <= self.payload.items@.len(),
                    items@.len() == i,
                    forall|k: int| 0 <= k < i ==> (#[trigger] items@[k])@ == item_source(item_view(self.payload.items@[k])),
                decreases self.payload.items@.len() - i,
            {
                items.push(self.payload.items[i].to_source());
                i = i + 1;
            }
            push_str(&mut out, "(");
            let inner = join(&items, ", ");
            push_string(&mut out, &inner);
            push_str(&mut out, ")");
            assert(strings_view(items@) =~= self@.payload.map_values(|it: ItemModel| item_source(it)));
        }
        push_str(&mut out, " from ");
        push_string(&mut out, &self.from.0);
        push_str(&mut out, " to ");
        push_string(&mut out, &self.to.0);
        push_str(&mut out, ";");
        assert(out@ =~= message_source(self@));
        out
    }
}

} // verus!
