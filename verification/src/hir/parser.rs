//! Decoding of blocks of key/value pairs into typed definitions.
//!
//! The input is what a grammar hands over: blocks of two kinds, each with a
//! name literal and key/value pairs, every string literal still in its
//! double quotes. Decoding strips the quotes, sorts the pairs of a block into
//! the fields of its kind and turns down what fits none.

use vstd::prelude::*;
use vstd::string::*;
use crate::string_map::{put, Entries, StringMap};
use crate::text::{first_absent, joined, split_ascii_whitespace, split_words, str_eq};
use crate::view::result_view;

verus! {

/// A stretch of the source text, as byte offsets: where a block or a pair stands.
#[derive(Debug, Clone, Copy, PartialEq, Eq, Structural)]
pub struct Span {
    pub start: usize,
    pub end: usize,
}

/// The two kinds of block.
#[derive(Debug, Clone, Copy, PartialEq, Eq, Structural)]
pub enum DefKind {
    Workflow,
    Action,
}

/// A value as the grammar found it. Each string is a literal in its quotes.
#[derive(Debug, Clone, PartialEq, Eq)]
pub enum RawValue {
    String(String),
    Array(Vec<String>),
    /// Pairs of an identifier and a literal, in source order.
    Mapping(Vec<(String, String)>),
}

pub enum RawValueView {
    String(Seq<char>),
    Array(Seq<Seq<char>>),
    Mapping(Seq<(Seq<char>, Seq<char>)>),
}

impl DeepView for RawValue {
    type V = RawValueView;

    open spec fn deep_view(&self) -> RawValueView {
        match self {
            RawValue::String(s) => RawValueView::String(s@),
            RawValue::Array(items) => RawValueView::Array(items.deep_view()),
            RawValue::Mapping(pairs) => RawValueView::Mapping(pairs.deep_view()),
        }
    }
}

/// A key/value pair as the grammar found it.
#[derive(Debug, Clone, PartialEq, Eq)]
pub struct RawPair {
    pub ident: String,
    pub value: RawValue,
    pub span: Span,
}

pub struct RawPairView {
    pub ident: Seq<char>,
    pub value: RawValueView,
    pub span: Span,
}

impl DeepView for RawPair {
    type V = RawPairView;

    open spec fn deep_view(&self) -> RawPairView {
        RawPairView { ident: self.ident@, value: self.value.deep_view(), span: self.span }
    }
}

/// A block as the grammar found it: its kind, its name literal and its
/// pairs in source order.
#[derive(Debug, Clone, PartialEq, Eq)]
pub struct RawBlock {
    pub kind: DefKind,
    pub name: String,
    pub pairs: Vec<RawPair>,
    pub span: Span,
}

pub struct RawBlockView {
    pub kind: DefKind,
    pub name: Seq<char>,
    pub pairs: Seq<RawPairView>,
    pub span: Span,
}

impl DeepView for RawBlock {
    type V = RawBlockView;

    open spec fn deep_view(&self) -> RawBlockView {
        RawBlockView {
            kind: self.kind,
            name: self.name@,
            pairs: self.pairs.deep_view(),
            span: self.span,
        }
    }
}

/// The three kinds of value.
#[derive(Debug, Clone, Copy, PartialEq, Eq, Structural)]
pub enum ValueKind {
    String,
    Array,
    Mapping,
}

/// What a field accepts.
#[derive(Debug, Clone, Copy, PartialEq, Eq, Structural)]
pub enum Expected {
    String,
    Array,
    Mapping,
    /// A list, or one string that stands for a list of one.
    ArrayOrString,
    /// A list, or one string of items that whitespace separates.
    ArrayOrSplitString,
}

/// Why a block could not be decoded. Each error says where in the source.
#[derive(Debug, Clone, PartialEq, Eq)]
pub enum ParseError {
    /// A string literal does not stand in double quotes.
    Syntax { span: Span },
    /// A value is of the wrong kind for its field.
    TypeMismatch { expected: Expected, actual: ValueKind, span: Span },
    /// A block gives `key` twice.
    DuplicateKey { key: String, span: Span },
    /// A block lacks `key`, which its kind requires.
    MissingKey { key: String, span: Span },
    /// A block gives `key`, which its kind does not know.
    UnexpectedKey { key: String, span: Span },
}

pub enum ParseErrorView {
    Syntax { span: Span },
    TypeMismatch { expected: Expected, actual: ValueKind, span: Span },
    DuplicateKey { key: Seq<char>, span: Span },
    MissingKey { key: Seq<char>, span: Span },
    UnexpectedKey { key: Seq<char>, span: Span },
}

impl DeepView for ParseError {
    type V = ParseErrorView;

    open spec fn deep_view(&self) -> ParseErrorView {
        match self {
            ParseError::Syntax { span } => ParseErrorView::Syntax { span: *span },
            ParseError::TypeMismatch { expected, actual, span } => ParseErrorView::TypeMismatch {
                expected: *expected,
                actual: *actual,
                span: *span,
            },
            ParseError::DuplicateKey { key, span } => ParseErrorView::DuplicateKey {
                key: key@,
                span: *span,
            },
            ParseError::MissingKey { key, span } => ParseErrorView::MissingKey {
                key: key@,
                span: *span,
            },
            ParseError::UnexpectedKey { key, span } => ParseErrorView::UnexpectedKey {
                key: key@,
                span: *span,
            },
        }
    }
}

/// A decoded value: a string, a list of strings or a map from strings to strings.
#[derive(Debug, Clone)]
pub enum Value {
    String(String),
    Array(Vec<String>),
    Mapping(StringMap),
}

pub enum ValueView {
    String(Seq<char>),
    Array(Seq<Seq<char>>),
    Mapping(Entries),
}

impl ValueView {
    pub open spec fn kind(self) -> ValueKind {
        match self {
            ValueView::String(_) => ValueKind::String,
            ValueView::Array(_) => ValueKind::Array,
            ValueView::Mapping(_) => ValueKind::Mapping,
        }
    }

    /// The value as a list, a single string standing for a list of one.
    pub open spec fn array_or_from_string(self, p: Span) -> Result<Seq<Seq<char>>, ParseErrorView> {
        match self {
            ValueView::String(s) => Ok(seq![s]),
            ValueView::Array(a) => Ok(a),
            ValueView::Mapping(_) => Err(mismatch(Expected::ArrayOrString, self, p)),
        }
    }

    /// The value as a list, a single string split on ASCII whitespace.
    pub open spec fn array_or_split_string(self, p: Span) -> Result<
        Seq<Seq<char>>,
        ParseErrorView,
    > {
        match self {
            ValueView::String(s) => Ok(split_words(s)),
            ValueView::Array(a) => Ok(a),
            ValueView::Mapping(_) => Err(mismatch(Expected::ArrayOrSplitString, self, p)),
        }
    }

    pub open spec fn string(self, p: Span) -> Result<Seq<char>, ParseErrorView> {
        match self {
            ValueView::String(s) => Ok(s),
            _ => Err(mismatch(Expected::String, self, p)),
        }
    }

    pub open spec fn array(self, p: Span) -> Result<Seq<Seq<char>>, ParseErrorView> {
        match self {
            ValueView::Array(a) => Ok(a),
            _ => Err(mismatch(Expected::Array, self, p)),
        }
    }

    pub open spec fn map(self, p: Span) -> Result<Entries, ParseErrorView> {
        match self {
            ValueView::Mapping(m) => Ok(m),
            _ => Err(mismatch(Expected::Mapping, self, p)),
        }
    }
}

/// The error for a value of the wrong kind.
pub open spec fn mismatch(expected: Expected, actual: ValueView, p: Span) -> ParseErrorView {
    ParseErrorView::TypeMismatch { expected, actual: actual.kind(), span: p }
}

impl DeepView for Value {
    type V = ValueView;

    open spec fn deep_view(&self) -> ValueView {
        match self {
            Value::String(s) => ValueView::String(s@),
            Value::Array(a) => ValueView::Array(a.deep_view()),
            Value::Mapping(m) => ValueView::Mapping(m.deep_view()),
        }
    }
}

impl ValueKind {
    /// The kind's name.
    pub fn name(&self) -> (r: &'static str)
        ensures
            r@ == self.name_view(),
    {
        match self {
            ValueKind::String => "string",
            ValueKind::Array => "array",
            ValueKind::Mapping => "map",
        }
    }
}

impl Value {
    pub fn kind(&self) -> (k: ValueKind)
        ensures
            k == self.deep_view().kind(),
    {
        match self {
            Value::String(_) => ValueKind::String,
            Value::Array(_) => ValueKind::Array,
            Value::Mapping(_) => ValueKind::Mapping,
        }
    }

    /// The name of the value's kind.
    pub fn ty(&self) -> (r: &'static str)
        ensures
            r@ == self.deep_view().kind().name_view(),
    {
        self.kind().name()
    }

    /// A list stays a list and a single string becomes a list of one; a
    /// map is a mismatch.
    pub fn array_or_from_string(self, p: Span) -> (r: Result<Vec<String>, ParseError>)
        ensures
            result_view(r) == self.deep_view().array_or_from_string(p),
    {
        match self {
            Value::String(s) => {
                let mut list: Vec<String> = Vec::new();
                list.push(s);
                assert(list.deep_view() =~= seq![s@]);
                Ok(list)
            },
            Value::Array(a) => Ok(a),
            Value::Mapping(_) => Err(
                ParseError::TypeMismatch {
                    expected: Expected::ArrayOrString,
                    actual: ValueKind::Mapping,
                    span: p,
                },
            ),
        }
    }

    /// A list stays a list and a single string is split on ASCII
    /// whitespace; a map is a mismatch.
    pub fn array_or_split_string(self, p: Span) -> (r: Result<Vec<String>, ParseError>)
        ensures
            result_view(r) == self.deep_view().array_or_split_string(p),
    {
        match self {
            Value::String(s) => Ok(split_ascii_whitespace(s.as_str())),
            Value::Array(arr) => Ok(arr),
            Value::Mapping(_) => Err(
                ParseError::TypeMismatch {
                    expected: Expected::ArrayOrSplitString,
                    actual: ValueKind::Mapping,
                    span: p,
                },
            ),
        }
    }

    /// The string, if the value is one.
    pub fn string(self, p: Span) -> (r: Result<String, ParseError>)
        ensures
            result_view(r) == self.deep_view().string(p),
    {
        match self {
            Value::String(s) => Ok(s),
            other => Err(
                ParseError::TypeMismatch { expected: Expected::String, actual: other.kind(), span: p },
            ),
        }
    }

    /// The list, if the value is one.
    pub fn array(self, p: Span) -> (r: Result<Vec<String>, ParseError>)
        ensures
            result_view(r) == self.deep_view().array(p),
    {
        match self {
            Value::Array(a) => Ok(a),
            other => Err(
                ParseError::TypeMismatch { expected: Expected::Array, actual: other.kind(), span: p },
            ),
        }
    }

    /// The map, if the value is one.
    pub fn map(self, p: Span) -> (r: Result<StringMap, ParseError>)
        ensures
            result_view(r) == self.deep_view().map(p),
    {
        match self {
            Value::Mapping(m) => Ok(m),
            other => Err(
                ParseError::TypeMismatch { expected: Expected::Mapping, actual: other.kind(), span: p },
            ),
        }
    }
}

/// A workflow block as written: every reference is still a name.
#[derive(Debug, Clone)]
pub struct WorkflowDef {
    pub name: String,
    pub on: String,
    pub resolves: Vec<String>,
}

pub struct WorkflowDefView {
    pub name: Seq<char>,
    pub on: Seq<char>,
    pub resolves: Seq<Seq<char>>,
}

impl DeepView for WorkflowDef {
    type V = WorkflowDefView;

    open spec fn deep_view(&self) -> WorkflowDefView {
        WorkflowDefView { name: self.name@, on: self.on@, resolves: self.resolves.deep_view() }
    }
}

/// An action block as written: every reference is still a name.
#[derive(Debug, Clone)]
pub struct ActionDef {
    pub name: String,
    pub uses: String,
    pub needs: Vec<String>,
    pub runs: Option<Vec<String>>,
    pub args: Option<Vec<String>>,
    pub env: StringMap,
    pub secrets: Vec<String>,
}

pub struct ActionDefView {
    pub name: Seq<char>,
    pub uses: Seq<char>,
    pub needs: Seq<Seq<char>>,
    pub runs: Option<Seq<Seq<char>>>,
    pub args: Option<Seq<Seq<char>>>,
    pub env: Entries,
    pub secrets: Seq<Seq<char>>,
}

impl DeepView for ActionDef {
    type V = ActionDefView;

    open spec fn deep_view(&self) -> ActionDefView {
        ActionDefView {
            name: self.name@,
            uses: self.uses@,
            needs: self.needs.deep_view(),
            runs: self.runs.deep_view(),
            args: self.args.deep_view(),
            env: self.env.deep_view(),
            secrets: self.secrets.deep_view(),
        }
    }
}

#[derive(Debug, Clone)]
pub enum Def {
    Workflow(WorkflowDef),
    Action(ActionDef),
}

pub enum DefView {
    Workflow(WorkflowDefView),
    Action(ActionDefView),
}

impl DeepView for Def {
    type V = DefView;

    open spec fn deep_view(&self) -> DefView {
        match self {
            Def::Workflow(w) => DefView::Workflow(w.deep_view()),
            Def::Action(a) => DefView::Action(a.deep_view()),
        }
    }
}

/// Whether `s` is a string literal: it stands in double quotes.
pub open spec fn quoted(s: Seq<char>) -> bool {
    s.len() >= 2 && s[0] == '"' && s.last() == '"'
}

/// `s` without its first and its last character.
pub open spec fn trimmed(s: Seq<char>) -> Seq<char> {
    s.subrange(1, s.len() - 1)
}

/// Every one of `items` is a string literal.
pub open spec fn all_quoted(items: Seq<Seq<char>>) -> bool {
    forall|i: int| 0 <= i < items.len() ==> quoted(#[trigger] items[i])
}

/// The literals of `items` without their quotes.
pub open spec fn all_trimmed(items: Seq<Seq<char>>) -> Seq<Seq<char>> {
    Seq::new(items.len(), |i: int| trimmed(items[i]))
}

/// The literals of the pairs of a map.
pub open spec fn literals(pairs: Seq<(Seq<char>, Seq<char>)>) -> Seq<Seq<char>> {
    Seq::new(pairs.len(), |i: int| pairs[i].1)
}

/// The map that the pairs make when each is stored in turn, so that of two
/// pairs with one identifier the later one decides the value.
pub open spec fn collect_entries(pairs: Seq<(Seq<char>, Seq<char>)>) -> Entries
    decreases pairs.len(),
{
    if pairs.len() == 0 {
        Seq::empty()
    } else {
        put(collect_entries(pairs.drop_last()), pairs.last().0, trimmed(pairs.last().1))
    }
}

/// The decoded value, unless one of the literals is none.
pub open spec fn decode_value(raw: RawValueView) -> Option<ValueView> {
    match raw {
        RawValueView::String(s) => if quoted(s) {
            Some(ValueView::String(trimmed(s)))
        } else {
            None
        },
        RawValueView::Array(items) => if all_quoted(items) {
            Some(ValueView::Array(all_trimmed(items)))
        } else {
            None
        },
        RawValueView::Mapping(pairs) => if all_quoted(literals(pairs)) {
            Some(ValueView::Mapping(collect_entries(pairs)))
        } else {
            None
        },
    }
}

/// A decoded key/value pair.
#[derive(Debug, Clone)]
pub struct KvPair {
    pub ident: String,
    pub val: Value,
}

pub struct KvPairView {
    pub ident: Seq<char>,
    pub val: ValueView,
}

impl DeepView for KvPair {
    type V = KvPairView;

    open spec fn deep_view(&self) -> KvPairView {
        KvPairView { ident: self.ident@, val: self.val.deep_view() }
    }
}

/// The decoded pair, or a syntax error at the pair's place.
pub open spec fn decode_pair(raw: RawPairView) -> Result<KvPairView, ParseErrorView> {
    match decode_value(raw.value) {
        Some(val) => Ok(KvPairView { ident: raw.ident, val }),
        None => Err(ParseErrorView::Syntax { span: raw.span }),
    }
}

/// The keys of `ps`, in order.
pub open spec fn idents(ps: Seq<KvPairView>) -> Seq<Seq<char>> {
    Seq::new(ps.len(), |i: int| ps[i].ident)
}

/// The decoded pairs of a block, in source order. Fails at the first pair
/// that has a malformed literal or gives a key for the second time.
pub open spec fn collect_pairs(raws: Seq<RawPairView>) -> Result<Seq<KvPairView>, ParseErrorView>
    decreases raws.len(),
{
    if raws.len() == 0 {
        Ok(Seq::empty())
    } else {
        match collect_pairs(raws.drop_last()) {
            Err(e) => Err(e),
            Ok(sofar) => match decode_pair(raws.last()) {
                Err(e) => Err(e),
                Ok(pair) => if idents(sofar).contains(pair.ident) {
                    Err(ParseErrorView::DuplicateKey { key: pair.ident, span: raws.last().span })
                } else {
                    Ok(sofar.push(pair))
                },
            },
        }
    }
}

/// The name of a block and its decoded pairs, once every key of `required`
/// was found among them.
pub open spec fn def_body(block: RawBlockView, required: Seq<Seq<char>>) -> Result<
    (Seq<char>, Seq<KvPairView>),
    ParseErrorView,
> {
    if !quoted(block.name) {
        Err(ParseErrorView::Syntax { span: block.span })
    } else {
        match collect_pairs(block.pairs) {
            Err(e) => Err(e),
            Ok(ps) => match first_absent(idents(ps), required) {
                Some(j) => Err(ParseErrorView::MissingKey { key: required[j], span: block.span }),
                None => Ok((trimmed(block.name), ps)),
            },
        }
    }
}

/// Position of the first pair with key `key`; the number of pairs if there is none.
pub open spec fn position(ps: Seq<KvPairView>, key: Seq<char>) -> int
    decreases ps.len(),
{
    if ps.len() == 0 {
        0
    } else if ps[0].ident == key {
        0
    } else {
        1 + position(ps.drop_first(), key)
    }
}

/// The value given for `key`, if any.
pub open spec fn lookup(ps: Seq<KvPairView>, key: Seq<char>) -> Option<ValueView> {
    let i = position(ps, key);
    if 0 <= i < ps.len() {
        Some(ps[i].val)
    } else {
        None
    }
}

/// The pairs without the one for `key`.
pub open spec fn without(ps: Seq<KvPairView>, key: Seq<char>) -> Seq<KvPairView> {
    let i = position(ps, key);
    if 0 <= i < ps.len() {
        ps.remove(i)
    } else {
        ps
    }
}

/// The pairs without those for `keys`.
pub open spec fn strip(ps: Seq<KvPairView>, keys: Seq<Seq<char>>) -> Seq<KvPairView>
    decreases keys.len(),
{
    if keys.len() == 0 {
        ps
    } else {
        without(strip(ps, keys.drop_last()), keys.last())
    }
}

/// The error for the first pair that is left over, if any is.
pub open spec fn leftover(ps: Seq<KvPairView>, p: Span) -> Option<ParseErrorView> {
    if ps.len() > 0 {
        Some(ParseErrorView::UnexpectedKey { key: ps[0].ident, span: p })
    } else {
        None
    }
}

/// The keys that a workflow block knows; it requires them all.
pub open spec fn workflow_keys() -> Seq<Seq<char>> {
    seq!["on"@, "resolves"@]
}

/// The keys that an action block knows.
pub open spec fn action_keys() -> Seq<Seq<char>> {
    seq!["uses"@, "needs"@, "runs"@, "args"@, "env"@, "secrets"@]
}

/// The keys that an action block requires.
pub open spec fn action_required() -> Seq<Seq<char>> {
    seq!["uses"@]
}

/// The value that a block must give for `key`.
pub open spec fn required_value(ps: Seq<KvPairView>, key: Seq<char>, p: Span) -> Result<
    ValueView,
    ParseErrorView,
> {
    match lookup(ps, key) {
        Some(v) => Ok(v),
        None => Err(ParseErrorView::MissingKey { key, span: p }),
    }
}

/// A string that a block must give.
pub open spec fn string_field(ps: Seq<KvPairView>, key: Seq<char>, p: Span) -> Result<
    Seq<char>,
    ParseErrorView,
> {
    match required_value(ps, key, p) {
        Ok(v) => v.string(p),
        Err(e) => Err(e),
    }
}

/// A list of names that a block may leave out: then it is empty.
pub open spec fn names_field(ps: Seq<KvPairView>, key: Seq<char>, p: Span) -> Result<
    Seq<Seq<char>>,
    ParseErrorView,
> {
    match lookup(ps, key) {
        Some(v) => v.array_or_from_string(p),
        None => Ok(Seq::empty()),
    }
}

/// A command line that a block may leave out.
pub open spec fn command_field(ps: Seq<KvPairView>, key: Seq<char>, p: Span) -> Result<
    Option<Seq<Seq<char>>>,
    ParseErrorView,
> {
    match lookup(ps, key) {
        Some(v) => match v.array_or_split_string(p) {
            Ok(list) => Ok(Some(list)),
            Err(e) => Err(e),
        },
        None => Ok(None),
    }
}

/// A map that a block may leave out: then it is empty.
pub open spec fn map_field(ps: Seq<KvPairView>, key: Seq<char>, p: Span) -> Result<
    Entries,
    ParseErrorView,
> {
    match lookup(ps, key) {
        Some(v) => v.map(p),
        None => Ok(Seq::empty()),
    }
}

/// A list that a block may leave out: then it is empty.
pub open spec fn list_field(ps: Seq<KvPairView>, key: Seq<char>, p: Span) -> Result<
    Seq<Seq<char>>,
    ParseErrorView,
> {
    match lookup(ps, key) {
        Some(v) => v.array(p),
        None => Ok(Seq::empty()),
    }
}

/// The workflow that a block defines. Its fields are read in the order
/// `on`, `resolves`; the first that is of the wrong kind decides the error,
/// and only then a key that a workflow does not know.
pub open spec fn workflow_def(block: RawBlockView) -> Result<WorkflowDefView, ParseErrorView> {
    match def_body(block, workflow_keys()) {
        Err(e) => Err(e),
        Ok((name, ps)) => {
            let p = block.span;
            let on = string_field(ps, "on"@, p);
            let resolves = match required_value(ps, "resolves"@, p) {
                Ok(v) => v.array_or_from_string(p),
                Err(e) => Err(e),
            };
            let rest = leftover(strip(ps, workflow_keys()), p);
            if on is Err {
                Err(on->Err_0)
            } else if resolves is Err {
                Err(resolves->Err_0)
            } else if rest is Some {
                Err(rest->0)
            } else {
                Ok(WorkflowDefView { name, on: on->Ok_0, resolves: resolves->Ok_0 })
            }
        },
    }
}

/// The action that a block defines. Its fields are read in the order
/// `uses`, `needs`, `runs`, `args`, `env`, `secrets`; the first that is of
/// the wrong kind decides the error, and only then a key that an action
/// does not know.
pub open spec fn action_def(block: RawBlockView) -> Result<ActionDefView, ParseErrorView> {
    match def_body(block, action_required()) {
        Err(e) => Err(e),
        Ok((name, ps)) => {
            let p = block.span;
            let uses = string_field(ps, "uses"@, p);
            let needs = names_field(ps, "needs"@, p);
            let runs = command_field(ps, "runs"@, p);
            let args = command_field(ps, "args"@, p);
            let env = map_field(ps, "env"@, p);
            let secrets = list_field(ps, "secrets"@, p);
            let rest = leftover(strip(ps, action_keys()), p);
            if uses is Err {
                Err(uses->Err_0)
            } else if needs is Err {
                Err(needs->Err_0)
            } else if runs is Err {
                Err(runs->Err_0)
            } else if args is Err {
                Err(args->Err_0)
            } else if env is Err {
                Err(env->Err_0)
            } else if secrets is Err {
                Err(secrets->Err_0)
            } else if rest is Some {
                Err(rest->0)
            } else {
                Ok(
                    ActionDefView {
                        name,
                        uses: uses->Ok_0,
                        needs: needs->Ok_0,
                        runs: runs->Ok_0,
                        args: args->Ok_0,
                        env: env->Ok_0,
                        secrets: secrets->Ok_0,
                    },
                )
            }
        },
    }
}

/// The definition that a block makes.
pub open spec fn decode_block(block: RawBlockView) -> Result<DefView, ParseErrorView> {
    match block.kind {
        DefKind::Workflow => match workflow_def(block) {
            Ok(w) => Ok(DefView::Workflow(w)),
            Err(e) => Err(e),
        },
        DefKind::Action => match action_def(block) {
            Ok(a) => Ok(DefView::Action(a)),
            Err(e) => Err(e),
        },
    }
}

/// The definitions that the blocks make, in source order, or the error of
/// the first block that makes none.
pub open spec fn decode(blocks: Seq<RawBlockView>) -> Result<Seq<DefView>, ParseErrorView>
    decreases blocks.len(),
{
    if blocks.len() == 0 {
        Ok(Seq::empty())
    } else {
        match decode(blocks.drop_last()) {
            Err(e) => Err(e),
            Ok(defs) => match decode_block(blocks.last()) {
                Err(e) => Err(e),
                Ok(def) => Ok(defs.push(def)),
            },
        }
    }
}

/// The position is within bounds, the pair there has the key, and no
/// earlier pair has it.
pub proof fn lemma_position(ps: Seq<KvPairView>, key: Seq<char>)
    ensures
        0 <= position(ps, key) <= ps.len(),
        position(ps, key) < ps.len() ==> ps[position(ps, key)].ident == key,
        forall|j: int| 0 <= j < position(ps, key) ==> (#[trigger] ps[j]).ident != key,
        position(ps, key) < ps.len() <==> idents(ps).contains(key),
    decreases ps.len(),
{
    if ps.len() > 0 {
        let t = ps.drop_first();
        lemma_position(t, key);
        if ps[0].ident == key {
            assert(idents(ps)[0] == key);
        } else {
            assert forall|j: int| 0 <= j < position(ps, key) implies (#[trigger] ps[j]).ident
                != key by {
                if j > 0 {
                    assert(t[j - 1] == ps[j]);
                }
            }
            if idents(t).contains(key) {
                let k = choose|k: int| 0 <= k < idents(t).len() && idents(t)[k] == key;
                assert(idents(ps)[k + 1] == key);
            }
            if idents(ps).contains(key) {
                let k = choose|k: int| 0 <= k < idents(ps).len() && idents(ps)[k] == key;
                assert(idents(t)[k - 1] == key);
            }
        }
    }
}

/// The first place where the key stands is its position.
pub proof fn lemma_position_at(ps: Seq<KvPairView>, key: Seq<char>, i: int)
    requires
        0 <= i <= ps.len(),
        forall|j: int| 0 <= j < i ==> (#[trigger] ps[j]).ident != key,
        i < ps.len() ==> ps[i].ident == key,
    ensures
        position(ps, key) == i,
{
    lemma_position(ps, key);
    let p = position(ps, key);
    if p < i {
        assert(ps[p].ident != key);
    }
}

/// Taking out the pair of one key leaves the value of every other key.
pub proof fn lemma_lookup_without(ps: Seq<KvPairView>, a: Seq<char>, b: Seq<char>)
    requires
        a != b,
    ensures
        lookup(without(ps, a), b) == lookup(ps, b),
{
    lemma_position(ps, a);
    lemma_position(ps, b);
    let i = position(ps, a);
    let j = position(ps, b);
    if i < ps.len() {
        let r = ps.remove(i);
        let target = if j < i {
            j
        } else {
            j - 1
        };
        assert forall|k: int| 0 <= k < target implies (#[trigger] r[k]).ident != b by {
            if k < i {
                assert(r[k] == ps[k]);
            } else {
                assert(r[k] == ps[k + 1]);
            }
        }
        if target < r.len() {
            if j < i {
                assert(r[target] == ps[j]);
            } else {
                assert(r[target] == ps[j]);
            }
        }
        lemma_position_at(r, b, target);
    }
}

/// Taking out the pairs of some keys leaves the value of every other key.
pub proof fn lemma_lookup_strip(ps: Seq<KvPairView>, keys: Seq<Seq<char>>, b: Seq<char>)
    requires
        !keys.contains(b),
    ensures
        lookup(strip(ps, keys), b) == lookup(ps, b),
    decreases keys.len(),
{
    if keys.len() > 0 {
        let d = keys.drop_last();
        assert(keys[keys.len() - 1] != b);
        assert(!d.contains(b)) by {
            if d.contains(b) {
                let k = choose|k: int| 0 <= k < d.len() && d[k] == b;
                assert(keys[k] == b);
            }
        }
        lemma_lookup_strip(ps, d, b);
        lemma_lookup_without(strip(ps, d), keys.last(), b);
    }
}

/// An error among a prefix of the pairs is the error of them all.
pub proof fn lemma_collect_pairs_persists(raws: Seq<RawPairView>, k: int)
    requires
        0 <= k <= raws.len(),
        collect_pairs(raws.take(k)).is_err(),
    ensures
        collect_pairs(raws) == collect_pairs(raws.take(k)),
    decreases raws.len(),
{
    if k == raws.len() {
        assert(raws.take(k) =~= raws);
    } else {
        assert(raws.drop_last().take(k) =~= raws.take(k));
        lemma_collect_pairs_persists(raws.drop_last(), k);
    }
}

/// An error among a prefix of the blocks is the error of them all.
pub proof fn lemma_decode_persists(blocks: Seq<RawBlockView>, k: int)
    requires
        0 <= k <= blocks.len(),
        decode(blocks.take(k)).is_err(),
    ensures
        decode(blocks) == decode(blocks.take(k)),
    decreases blocks.len(),
{
    if k == blocks.len() {
        assert(blocks.take(k) =~= blocks);
    } else {
        assert(blocks.drop_last().take(k) =~= blocks.take(k));
        lemma_decode_persists(blocks.drop_last(), k);
    }
}

/// The pairs that decode are as many as were given, under the same keys in
/// the same order, and no key occurs twice among them.
pub proof fn lemma_collect_pairs(raws: Seq<RawPairView>)
    ensures
        collect_pairs(raws) matches Ok(ps) ==> {
            &&& ps.len() == raws.len()
            &&& forall|i: int| 0 <= i < ps.len() ==> (#[trigger] ps[i]).ident == raws[i].ident
            &&& idents(ps).no_duplicates()
        },
    decreases raws.len(),
{
    if raws.len() > 0 {
        let d = raws.drop_last();
        lemma_collect_pairs(d);
        if let Ok(ps) = collect_pairs(raws) {
            let sofar = collect_pairs(d)->Ok_0;
            let pair = decode_pair(raws.last())->Ok_0;
            assert(ps == sofar.push(pair));
            assert forall|i: int| 0 <= i < ps.len() implies (#[trigger] ps[i]).ident
                == raws[i].ident by {
                if i < sofar.len() {
                    assert(ps[i] == sofar[i]);
                    assert(d[i] == raws[i]);
                }
            }
            assert forall|i: int, j: int|
                0 <= i < idents(ps).len() && 0 <= j < idents(ps).len() && i != j implies idents(
                ps,
            )[i] != idents(ps)[j] by {
                if i < sofar.len() && j < sofar.len() {
                    assert(idents(sofar)[i] != idents(sofar)[j]);
                } else if i < sofar.len() {
                    assert(idents(sofar)[i] == ps[i].ident);
                } else {
                    assert(idents(sofar)[j] == ps[j].ident);
                }
            }
        }
    }
}

/// A pair stays when pairs are taken out for keys other than its own.
pub proof fn lemma_strip_keeps(ps: Seq<KvPairView>, keys: Seq<Seq<char>>, i: int)
    requires
        0 <= i < ps.len(),
        !keys.contains(ps[i].ident),
    ensures
        strip(ps, keys).contains(ps[i]),
    decreases keys.len(),
{
    if keys.len() == 0 {
        assert(strip(ps, keys)[i] == ps[i]);
    } else {
        let d = keys.drop_last();
        let k = keys.last();
        assert(keys[keys.len() - 1] == k);
        assert(!d.contains(ps[i].ident)) by {
            if d.contains(ps[i].ident) {
                let j = choose|j: int| 0 <= j < d.len() && d[j] == ps[i].ident;
                assert(keys[j] == ps[i].ident);
            }
        }
        lemma_strip_keeps(ps, d, i);
        let x = strip(ps, d);
        let j = choose|j: int| 0 <= j < x.len() && x[j] == ps[i];
        lemma_position(x, k);
        let at = position(x, k);
        if at < x.len() {
            let r = x.remove(at);
            if j < at {
                assert(r[j] == x[j]);
            } else {
                assert(j != at);
                assert(r[j - 1] == x[j]);
            }
        }
    }
}

/// When nothing is left over after the pairs for `keys` are taken out,
/// every pair had one of these keys.
pub proof fn lemma_nothing_left(ps: Seq<KvPairView>, keys: Seq<Seq<char>>, p: Span)
    requires
        leftover(strip(ps, keys), p).is_none(),
    ensures
        forall|i: int| 0 <= i < ps.len() ==> keys.contains((#[trigger] ps[i]).ident),
{
    assert forall|i: int| 0 <= i < ps.len() implies keys.contains((#[trigger] ps[i]).ident) by {
        if !keys.contains(ps[i].ident) {
            lemma_strip_keeps(ps, keys, i);
        }
    }
}

/// The keys that a block of kind `kind` knows.
pub open spec fn known_keys(kind: DefKind) -> Seq<Seq<char>> {
    match kind {
        DefKind::Workflow => workflow_keys(),
        DefKind::Action => action_keys(),
    }
}

/// A block that decodes has a name in quotes, gives no key twice and
/// gives only keys that its kind knows.
pub proof fn lemma_decoded_block(block: RawBlockView)
    requires
        decode_block(block).is_ok(),
    ensures
        quoted(block.name),
        forall|i: int|
            0 <= i < block.pairs.len() ==> known_keys(block.kind).contains(
                (#[trigger] block.pairs[i]).ident,
            ),
        forall|i: int, j: int|
            0 <= i < j < block.pairs.len() ==> (#[trigger] block.pairs[i]).ident != (
            #[trigger] block.pairs[j]).ident,
{
    lemma_collect_pairs(block.pairs);
    let ps = collect_pairs(block.pairs)->Ok_0;
    let known = known_keys(block.kind);
    match block.kind {
        DefKind::Workflow => {
            assert(workflow_def(block).is_ok());
            assert(leftover(strip(ps, workflow_keys()), block.span).is_none());
        },
        DefKind::Action => {
            assert(action_def(block).is_ok());
            assert(leftover(strip(ps, action_keys()), block.span).is_none());
        },
    }
    lemma_nothing_left(ps, known, block.span);
    assert forall|i: int| 0 <= i < block.pairs.len() implies known.contains(
        (#[trigger] block.pairs[i]).ident,
    ) by {
        assert(ps[i].ident == block.pairs[i].ident);
    }
    assert forall|i: int, j: int| 0 <= i < j < block.pairs.len() implies (
    #[trigger] block.pairs[i]).ident != (#[trigger] block.pairs[j]).ident by {
        assert(idents(ps)[i] == ps[i].ident);
        assert(idents(ps)[j] == ps[j].ident);
        assert(idents(ps)[i] != idents(ps)[j]);
    }
}

/// Whether `s` stands in double quotes.
pub fn is_quoted(s: &str) -> (r: bool)
    ensures
        r == quoted(s@),
{
    let n = s.unicode_len();
    n >= 2 && s.get_char(0) == '"' && s.get_char(n - 1) == '"'
}

/// `s` without its first and its last character: a literal without its quotes.
pub fn trim_str(s: &str) -> (r: &str)
    requires
        s@.len() >= 2,
    ensures
        r@ == trimmed(s@),
{
    let n = s.unicode_len();
    s.substring_char(1, n - 1)
}

/// The literals without their quotes, unless one is malformed.
fn unquote_all(items: &Vec<String>) -> (r: Option<Vec<String>>)
    ensures
        r.deep_view() == if all_quoted(items.deep_view()) {
            Some(all_trimmed(items.deep_view()))
        } else {
            None
        },
{
    let ghost iv = items.deep_view();
    let n = items.len();
    let mut out: Vec<String> = Vec::new();
    let mut i: usize = 0;
    while i < n
        invariant
            i <= n,
            n == items@.len(),
            iv == items.deep_view(),
            out@.len() == i,
            forall|j: int| 0 <= j < i ==> quoted(#[trigger] iv[j]),
            forall|j: int| 0 <= j < i ==> (#[trigger] out@[j])@ == trimmed(iv[j]),
        decreases n - i,
    {
        let item = items[i].as_str();
        if !is_quoted(item) {
            assert(!quoted(iv[i as int]));
            return None;
        }
        out.push(trim_str(item).to_owned());
        i += 1;
    }
    assert(out.deep_view() =~= all_trimmed(iv));
    Some(out)
}

/// The map that the pairs make, unless a literal is malformed.
fn collect_map(pairs: &Vec<(String, String)>) -> (r: Option<StringMap>)
    ensures
        r.deep_view() == if all_quoted(literals(pairs.deep_view())) {
            Some(collect_entries(pairs.deep_view()))
        } else {
            None
        },
{
    let ghost pv = pairs.deep_view();
    let n = pairs.len();
    let mut out = StringMap::new();
    let mut i: usize = 0;
    assert(pv.take(0) =~= Seq::empty());
    while i < n
        invariant
            i <= n,
            n == pairs@.len(),
            pv == pairs.deep_view(),
            forall|j: int| 0 <= j < i ==> quoted(#[trigger] literals(pv)[j]),
            out.deep_view() == collect_entries(pv.take(i as int)),
        decreases n - i,
    {
        let literal = pairs[i].1.as_str();
        if !is_quoted(literal) {
            assert(!quoted(literals(pv)[i as int]));
            return None;
        }
        proof {
            assert(pv.take(i + 1).drop_last() =~= pv.take(i as int));
        }
        out.insert(pairs[i].0.clone(), trim_str(literal).to_owned());
        i += 1;
    }
    assert(pv.take(n as int) =~= pv);
    Some(out)
}

/// Decodes one key/value pair: strips the quotes of its literals and, for a
/// map, stores its pairs in turn.
pub fn parse_kvp(p: &RawPair) -> (r: Result<KvPair, ParseError>)
    ensures
        result_view(r) == decode_pair(p.deep_view()),
{
    let val = match &p.value {
        RawValue::String(s) => {
            if !is_quoted(s.as_str()) {
                return Err(ParseError::Syntax { span: p.span });
            }
            Value::String(trim_str(s.as_str()).to_owned())
        },
        RawValue::Array(items) => {
            match unquote_all(items) {
                Some(out) => Value::Array(out),
                None => {
                    return Err(ParseError::Syntax { span: p.span });
                },
            }
        },
        RawValue::Mapping(pairs) => {
            match collect_map(pairs) {
                Some(out) => Value::Mapping(out),
                None => {
                    return Err(ParseError::Syntax { span: p.span });
                },
            }
        },
    };
    Ok(KvPair { ident: p.ident.clone(), val })
}

/// Position of the pair with key `key`.
fn find_ident(kvps: &Vec<KvPair>, key: &str) -> (r: Option<usize>)
    ensures
        match r {
            Some(i) => i < kvps@.len() && position(kvps.deep_view(), key@) == i,
            None => position(kvps.deep_view(), key@) == kvps@.len(),
        },
{
    let ghost ps = kvps.deep_view();
    let n = kvps.len();
    let mut i: usize = 0;
    while i < n
        invariant
            i <= n,
            n == kvps@.len(),
            ps == kvps.deep_view(),
            forall|j: int| 0 <= j < i ==> (#[trigger] ps[j]).ident != key@,
        decreases n - i,
    {
        if str_eq(kvps[i].ident.as_str(), key) {
            proof {
                lemma_position_at(ps, key@, i as int);
            }
            return Some(i);
        }
        i += 1;
    }
    proof {
        lemma_position_at(ps, key@, n as int);
    }
    None
}

/// Takes the pair for `key` out of `kvps` and returns its value.
fn take(kvps: &mut Vec<KvPair>, key: &str) -> (r: Option<Value>)
    ensures
        final(kvps).deep_view() == without(old(kvps).deep_view(), key@),
        r.deep_view() == lookup(old(kvps).deep_view(), key@),
{
    match find_ident(kvps, key) {
        Some(i) => {
            let ghost before = kvps.deep_view();
            let pair = kvps.remove(i);
            assert(kvps.deep_view() =~= before.remove(i as int));
            Some(pair.val)
        },
        None => None,
    }
}

/// Reads the name of a block and decodes its pairs. Fails on a malformed
/// literal, on the first key that is given twice, and then on the first
/// key of `required` that is not given.
pub fn parse_def_body(block: &RawBlock, required: &[&str]) -> (r: Result<
    (String, Vec<KvPair>),
    ParseError,
>)
    ensures
        result_view(r) == def_body(block.deep_view(), required.deep_view()),
{
    if !is_quoted(block.name.as_str()) {
        return Err(ParseError::Syntax { span: block.span });
    }
    let ghost raws = block.pairs.deep_view();
    let n = block.pairs.len();
    let mut out: Vec<KvPair> = Vec::new();
    let mut i: usize = 0;
    assert(raws.take(0) =~= Seq::empty());
    assert(out.deep_view() =~= Seq::empty());
    while i < n
        invariant
            i <= n,
            n == block.pairs@.len(),
            raws == block.pairs.deep_view(),
            quoted(block.name@),
            collect_pairs(raws.take(i as int)) == Ok::<Seq<KvPairView>, ParseErrorView>(
                out.deep_view(),
            ),
        decreases n - i,
    {
        let item = &block.pairs[i];
        proof {
            assert(raws.take(i + 1).drop_last() =~= raws.take(i as int));
            assert(raws.take(i + 1).last() == item.deep_view());
        }
        match parse_kvp(item) {
            Err(e) => {
                proof {
                    lemma_collect_pairs_persists(raws, i + 1);
                }
                return Err(e);
            },
            Ok(pair) => {
                proof {
                    lemma_position(out.deep_view(), pair.ident@);
                }
                if find_ident(&out, pair.ident.as_str()).is_some() {
                    proof {
                        lemma_collect_pairs_persists(raws, i + 1);
                    }
                    return Err(ParseError::DuplicateKey { key: pair.ident, span: item.span });
                }
                let ghost before = out.deep_view();
                out.push(pair);
                assert(out.deep_view() =~= before.push(pair.deep_view()));
            },
        }
        i += 1;
    }
    assert(raws.take(n as int) =~= raws);
    let ghost ps = out.deep_view();
    let ghost wanted = required.deep_view();
    let m = required.len();
    let mut k: usize = 0;
    assert(wanted.take(0) =~= Seq::empty());
    while k < m
        invariant
            k <= m,
            m == required@.len(),
            wanted == required.deep_view(),
            ps == out.deep_view(),
            raws == block.pairs.deep_view(),
            quoted(block.name@),
            collect_pairs(raws) == Ok::<Seq<KvPairView>, ParseErrorView>(ps),
            first_absent(idents(ps), wanted.take(k as int)).is_none(),
        decreases m - k,
    {
        let req = required[k];
        proof {
            assert(wanted.take(k + 1).drop_last() =~= wanted.take(k as int));
            assert(wanted.take(k + 1).last() == req@);
            lemma_position(ps, req@);
        }
        if find_ident(&out, req).is_none() {
            proof {
                crate::text::lemma_first_absent_persists(idents(ps), wanted, k + 1);
            }
            return Err(ParseError::MissingKey { key: req.to_owned(), span: block.span });
        }
        k += 1;
    }
    assert(wanted.take(m as int) =~= wanted);
    Ok((trim_str(block.name.as_str()).to_owned(), out))
}

/// Fails if a pair is left: its key is one that the block's kind does not know.
pub fn check_kvps_empty(p: Span, k: &Vec<KvPair>) -> (r: Result<(), ParseError>)
    ensures
        match r {
            Ok(_) => leftover(k.deep_view(), p).is_none(),
            Err(e) => leftover(k.deep_view(), p) == Some(e.deep_view()),
        },
{
    if k.len() > 0 {
        Err(ParseError::UnexpectedKey { key: k[0].ident.clone(), span: p })
    } else {
        Ok(())
    }
}

/// The keys of blocks are different strings.
proof fn lemma_keys_differ()
    ensures
        "on"@ != "resolves"@,
        "uses"@ != "needs"@,
        "uses"@ != "runs"@,
        "uses"@ != "args"@,
        "uses"@ != "env"@,
        "uses"@ != "secrets"@,
        "needs"@ != "runs"@,
        "needs"@ != "args"@,
        "needs"@ != "env"@,
        "needs"@ != "secrets"@,
        "runs"@ != "args"@,
        "runs"@ != "env"@,
        "runs"@ != "secrets"@,
        "args"@ != "env"@,
        "args"@ != "secrets"@,
        "env"@ != "secrets"@,
{
    reveal_strlit("on");
    reveal_strlit("resolves");
    reveal_strlit("uses");
    reveal_strlit("needs");
    reveal_strlit("runs");
    reveal_strlit("args");
    reveal_strlit("env");
    reveal_strlit("secrets");
    assert("on"@.len() == 2 && "resolves"@.len() == 8);
    assert("needs"@.len() == 5 && "env"@.len() == 3 && "secrets"@.len() == 7);
    assert("uses"@.len() == 4 && "runs"@.len() == 4 && "args"@.len() == 4);
    assert("uses"@[0] != "runs"@[0]);
    assert("uses"@[0] != "args"@[0]);
    assert("runs"@[0] != "args"@[0]);
}

/// Decodes a workflow block: `on` must be a string, `resolves` a list or a
/// single name, and no other key may be given.
pub fn parse_workflow_def(block: &RawBlock) -> (r: Result<WorkflowDef, ParseError>)
    ensures
        result_view(r) == workflow_def(block.deep_view()),
{
    let span = block.span;
    let required = ["on", "resolves"];
    assert(required@ =~= seq!["on", "resolves"]);
    let keys = required.as_slice();
    assert(keys.deep_view() =~= workflow_keys());
    let (name, mut kvps) = match parse_def_body(block, keys) {
        Ok(body) => body,
        Err(e) => {
            return Err(e);
        },
    };
    let ghost ps = kvps.deep_view();
    proof {
        lemma_keys_differ();
        crate::text::lemma_first_absent(idents(ps), workflow_keys());
        assert(idents(ps).contains(workflow_keys()[0]));
        assert(idents(ps).contains(workflow_keys()[1]));
        lemma_position(ps, "on"@);
        lemma_position(ps, "resolves"@);
        lemma_lookup_without(ps, "on"@, "resolves"@);
        assert(workflow_keys().drop_last() =~= seq!["on"@]);
        assert(seq!["on"@].drop_last() =~= Seq::<Seq<char>>::empty());
        assert(strip(ps, seq!["on"@]) == without(ps, "on"@)) by {
            reveal_with_fuel(strip, 2);
        }
    }
    let on = match take(&mut kvps, "on") {
        Some(v) => match v.string(span) {
            Ok(on) => on,
            Err(e) => {
                return Err(e);
            },
        },
        None => {
            return Err(ParseError::MissingKey { key: "on".to_owned(), span });
        },
    };
    let resolves = match take(&mut kvps, "resolves") {
        Some(v) => match v.array_or_from_string(span) {
            Ok(list) => list,
            Err(e) => {
                return Err(e);
            },
        },
        None => {
            return Err(ParseError::MissingKey { key: "resolves".to_owned(), span });
        },
    };
    match check_kvps_empty(span, &kvps) {
        Ok(_) => Ok(WorkflowDef { name, on, resolves }),
        Err(e) => Err(e),
    }
}

/// Decodes an action block: `uses` must be a string; `needs` may be a list
/// or a single name; `runs` and `args` may be a list or one string that
/// whitespace splits; `env` may be a map and `secrets` a list; and no other
/// key may be given.
pub fn parse_action_def(block: &RawBlock) -> (r: Result<ActionDef, ParseError>)
    ensures
        result_view(r) == action_def(block.deep_view()),
{
    let span = block.span;
    let required = ["uses"];
    assert(required@ =~= seq!["uses"]);
    let keys = required.as_slice();
    assert(keys.deep_view() =~= action_required());
    let (name, mut kvps) = match parse_def_body(block, keys) {
        Ok(body) => body,
        Err(e) => {
            return Err(e);
        },
    };
    let ghost ps = kvps.deep_view();
    let ghost k1 = seq!["uses"@];
    let ghost k2 = k1.push("needs"@);
    let ghost k3 = k2.push("runs"@);
    let ghost k4 = k3.push("args"@);
    let ghost k5 = k4.push("env"@);
    let ghost k6 = k5.push("secrets"@);
    proof {
        lemma_keys_differ();
        crate::text::lemma_first_absent(idents(ps), action_required());
        assert(idents(ps).contains(action_required()[0]));
        lemma_position(ps, "uses"@);
        assert(k1.drop_last() =~= Seq::<Seq<char>>::empty());
        assert(k2.drop_last() =~= k1);
        assert(k3.drop_last() =~= k2);
        assert(k4.drop_last() =~= k3);
        assert(k5.drop_last() =~= k4);
        assert(k6.drop_last() =~= k5);
        assert(k6 =~= action_keys());
        assert(strip(ps, k1) == without(ps, "uses"@)) by {
            reveal_with_fuel(strip, 2);
        }
        lemma_lookup_strip(ps, k1, "needs"@);
        lemma_lookup_strip(ps, k2, "runs"@);
        lemma_lookup_strip(ps, k3, "args"@);
        lemma_lookup_strip(ps, k4, "env"@);
        lemma_lookup_strip(ps, k5, "secrets"@);
    }
    let uses = match take(&mut kvps, "uses") {
        Some(v) => match v.string(span) {
            Ok(uses) => uses,
            Err(e) => {
                return Err(e);
            },
        },
        None => {
            return Err(ParseError::MissingKey { key: "uses".to_owned(), span });
        },
    };
    assert(kvps.deep_view() == strip(ps, k1));
    let needs = match take(&mut kvps, "needs") {
        Some(v) => match v.array_or_from_string(span) {
            Ok(list) => list,
            Err(e) => {
                return Err(e);
            },
        },
        None => Vec::new(),
    };
    assert(kvps.deep_view() == strip(ps, k2));
    let runs = match take(&mut kvps, "runs") {
        Some(v) => match v.array_or_split_string(span) {
            Ok(list) => Some(list),
            Err(e) => {
                return Err(e);
            },
        },
        None => None,
    };
    assert(kvps.deep_view() == strip(ps, k3));
    let args = match take(&mut kvps, "args") {
        Some(v) => match v.array_or_split_string(span) {
            Ok(list) => Some(list),
            Err(e) => {
                return Err(e);
            },
        },
        None => None,
    };
    assert(kvps.deep_view() == strip(ps, k4));
    let env = match take(&mut kvps, "env") {
        Some(v) => match v.map(span) {
            Ok(m) => m,
            Err(e) => {
                return Err(e);
            },
        },
        None => StringMap::new(),
    };
    assert(kvps.deep_view() == strip(ps, k5));
    let secrets = match take(&mut kvps, "secrets") {
        Some(v) => match v.array(span) {
            Ok(list) => list,
            Err(e) => {
                return Err(e);
            },
        },
        None => Vec::new(),
    };
    assert(kvps.deep_view() == strip(ps, k6));
    assert(needs.deep_view() =~= names_field(ps, "needs"@, span)->Ok_0);
    assert(secrets.deep_view() =~= list_field(ps, "secrets"@, span)->Ok_0);
    match check_kvps_empty(span, &kvps) {
        Ok(_) => Ok(ActionDef { name, uses, needs, runs, args, env, secrets }),
        Err(e) => Err(e),
    }
}

/// Decodes a block according to its kind.
pub fn parse_def(block: &RawBlock) -> (r: Result<Def, ParseError>)
    ensures
        result_view(r) == decode_block(block.deep_view()),
{
    match block.kind {
        DefKind::Workflow => match parse_workflow_def(block) {
            Ok(w) => Ok(Def::Workflow(w)),
            Err(e) => Err(e),
        },
        DefKind::Action => match parse_action_def(block) {
            Ok(a) => Ok(Def::Action(a)),
            Err(e) => Err(e),
        },
    }
}

/// Decodes the blocks of a file in source order and stops at the first
/// that cannot be decoded.
pub fn parse(blocks: &Vec<RawBlock>) -> (r: Result<Vec<Def>, ParseError>)
    ensures
        result_view(r) == decode(blocks.deep_view()),
{
    let ghost bv = blocks.deep_view();
    let n = blocks.len();
    let mut res: Vec<Def> = Vec::new();
    let mut i: usize = 0;
    assert(bv.take(0) =~= Seq::empty());
    assert(res.deep_view() =~= Seq::empty());
    while i < n
        invariant
            i <= n,
            n == blocks@.len(),
            bv == blocks.deep_view(),
            decode(bv.take(i as int)) == Ok::<Seq<DefView>, ParseErrorView>(res.deep_view()),
        decreases n - i,
    {
        proof {
            assert(bv.take(i + 1).drop_last() =~= bv.take(i as int));
            assert(bv.take(i + 1).last() == blocks@[i as int].deep_view());
        }
        match parse_def(&blocks[i]) {
            Ok(def) => {
                let ghost before = res.deep_view();
                res.push(def);
                assert(res.deep_view() =~= before.push(def.deep_view()));
            },
            Err(e) => {
                proof {
                    lemma_decode_persists(bv, i + 1);
                }
                return Err(e);
            },
        }
        i += 1;
    }
    assert(bv.take(n as int) =~= bv);
    Ok(res)
}

impl Expected {
    /// What is accepted, in words.
    pub open spec fn name_view(self) -> Seq<char> {
        match self {
            Expected::String => "string"@,
            Expected::Array => "array"@,
            Expected::Mapping => "map"@,
            Expected::ArrayOrString => "array or single string"@,
            Expected::ArrayOrSplitString => "array or string with space-separated items"@,
        }
    }

    /// What is accepted, in words.
    pub fn name(&self) -> (r: &'static str)
        ensures
            r@ == self.name_view(),
    {
        match self {
            Expected::String => "string",
            Expected::Array => "array",
            Expected::Mapping => "map",
            Expected::ArrayOrString => "array or single string",
            Expected::ArrayOrSplitString => "array or string with space-separated items",
        }
    }
}

impl ValueKind {
    /// The kind's name.
    pub open spec fn name_view(self) -> Seq<char> {
        match self {
            ValueKind::String => "string"@,
            ValueKind::Array => "array"@,
            ValueKind::Mapping => "map"@,
        }
    }
}

impl ParseErrorView {
    /// Where the error is.
    pub open spec fn span(self) -> Span {
        match self {
            ParseErrorView::Syntax { span } => span,
            ParseErrorView::TypeMismatch { span, .. } => span,
            ParseErrorView::DuplicateKey { span, .. } => span,
            ParseErrorView::MissingKey { span, .. } => span,
            ParseErrorView::UnexpectedKey { span, .. } => span,
        }
    }

    /// What the error says.
    pub open spec fn message(self) -> Seq<char> {
        match self {
            ParseErrorView::Syntax { .. } => "string literal is not quoted"@,
            ParseErrorView::TypeMismatch { expected, actual, .. } => "expected "@
                + expected.name_view() + ", got "@ + actual.name_view(),
            ParseErrorView::DuplicateKey { key, .. } => "key "@ + key + " redefined"@,
            ParseErrorView::MissingKey { key, .. } => "key "@ + key + " required but not set"@,
            ParseErrorView::UnexpectedKey { key, .. } => "unexpected key "@ + key,
        }
    }
}

impl ParseError {
    /// Where the error is.
    pub fn span(&self) -> (p: Span)
        ensures
            p == self.deep_view().span(),
    {
        match self {
            ParseError::Syntax { span } => *span,
            ParseError::TypeMismatch { span, .. } => *span,
            ParseError::DuplicateKey { span, .. } => *span,
            ParseError::MissingKey { span, .. } => *span,
            ParseError::UnexpectedKey { span, .. } => *span,
        }
    }

    /// What the error says.
    pub fn message(&self) -> (m: String)
        ensures
            m@ == self.deep_view().message(),
    {
        match self {
            ParseError::Syntax { .. } => "string literal is not quoted".to_owned(),
            ParseError::TypeMismatch { expected, actual, .. } => {
                let mut m = joined("expected ", expected.name());
                m.append(", got ");
                m.append(actual.name());
                m
            },
            ParseError::DuplicateKey { key, .. } => {
                let mut m = joined("key ", key.as_str());
                m.append(" redefined");
                m
            },
            ParseError::MissingKey { key, .. } => {
                let mut m = joined("key ", key.as_str());
                m.append(" required but not set");
                m
            },
            ParseError::UnexpectedKey { key, .. } => joined("unexpected key ", key.as_str()),
        }
    }

    /// The error as it is shown to the user: with the place in `input`
    /// that it is about if its span is a stretch of `input`, else as the bare
    /// message.
    pub fn report(&self, input: &str) -> (r: String)
        ensures
            r@ == shown(input@, self.deep_view().span(), self.deep_view().message()),
    {
        let message = self.message();
        match error_at(input, self.span(), message.as_str()) {
            Some(r) => r,
            None => error_line(message.as_str()),
        }
    }
}

/// Whether the bytes from `start` up to `end` are a stretch of the text
/// `input`: they lie within it, in this order, and neither cuts a character.
pub open spec fn is_stretch(input: Seq<char>, start: usize, end: usize) -> bool {
    let bytes = vstd::utf8::encode_utf8(input);
    &&& start <= end <= bytes.len()
    &&& vstd::utf8::is_char_boundary(bytes, start as int)
    &&& vstd::utf8::is_char_boundary(bytes, end as int)
}

/// What `pest` shows for an error with the custom message `message` on
/// the stretch of `input` from byte `start` up to byte `end`: the line and
/// column, the line of the input and a mark under the stretch, then the
/// message.
pub uninterp spec fn pest_rendering(input: Seq<char>, start: usize, end: usize, message: Seq<char>) -> Seq<char>;

/// Calls `pest::Span::new`, `pest::error::Error::new_from_span` with a
/// custom error, and the error's `Display`.
///
/// Claims that there is a result exactly for a stretch of `input`, as
/// `Span::new` goes by `str::get`, and that the result is a function of the
/// arguments alone, which is given the name [`pest_rendering`].
#[verifier::external_body]
fn render_at(input: &str, start: usize, end: usize, message: &str) -> (r: Option<String>)
    ensures
        r.is_some() == is_stretch(input@, start, end),
        r matches Some(text) ==> text@ == pest_rendering(input@, start, end, message@),
{
    match pest::Span::new(input, start, end) {
        Some(span) => {
            let variant = pest::error::ErrorVariant::<u8>::CustomError { message: message.to_string() };
            Some(pest::error::Error::new_from_span(variant, span).to_string())
        },
        None => None,
    }
}

/// The line that shows an error to the user.
pub fn error_line(rendering: &str) -> (r: String)
    ensures
        r@ == "error: "@ + rendering@,
{
    joined("error: ", rendering)
}

/// What is shown for `message` about the stretch `p` of `input`.
pub open spec fn shown(input: Seq<char>, p: Span, message: Seq<char>) -> Seq<char> {
    if is_stretch(input, p.start, p.end) {
        "error: "@ + pest_rendering(input, p.start, p.end, message)
    } else {
        "error: "@ + message
    }
}

/// The line that shows `message` with the stretch `p` of `input` that it
/// is about. There is none if `p` is no stretch of `input`.
pub fn error_at(input: &str, p: Span, message: &str) -> (r: Option<String>)
    ensures
        r.is_some() == is_stretch(input@, p.start, p.end),
        r matches Some(line) ==> line@ == shown(input@, p, message@),
{
    match render_at(input, p.start, p.end, message) {
        Some(rendering) => Some(error_line(rendering.as_str())),
        None => None,
    }
}

} // verus!
