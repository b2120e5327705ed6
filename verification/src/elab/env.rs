//! What is in scope while a function is elaborated: the local names, the
//! known facts, the context they are declared in, and the diagnostics
//! reported so far.

use crate::arith::truth::{copy_type, same_term_type};
use crate::ast;
use crate::diagnostic::{fresh, same_head, Diagnostic, Level};
use crate::source::Span;
use crate::term::{Proof, Term, TermView, Type};
use crate::text::same_text;
use std::collections::HashMap;
use vstd::prelude::*;
use vstd::string::StringExecFns;

verus! {

/// A local name: what it refers to, and what is known of the binding.
pub struct Local {
    pub name: String,
    pub id: u64,
    pub ty: Type,
    /// The binding failed to elaborate. A use of it is a consequence of an
    /// error already reported, and is not reported again.
    pub poisoned: bool,
    /// The source type is logical even when the representation also serves
    /// runtime data.
    pub logical: bool,
}

/// Something known at this point, with the proof that it holds.
pub struct Fact {
    pub proof: Proof,
    pub claim: Term,
    /// The equation `name == value` of a `let`: what computing replaces the
    /// name by. Any other fact is used exactly, and never to rewrite.
    pub definition: bool,
}

impl Fact {
    pub fn new(proof: Proof, claim: Term) -> (result: Fact)
        ensures
            result == (Fact { proof, claim, definition: false }),
    {
        Fact { proof, claim, definition: false }
    }

    pub fn definition(proof: Proof, claim: Term) -> (result: Fact)
        ensures
            result == (Fact { proof, claim, definition: true }),
    {
        Fact { proof, claim, definition: true }
    }
}

/// A point to return to at the end of a lexical scope.
pub struct Mark {
    ctx: usize,
    names: usize,
    facts: usize,
}

impl Mark {
    /// The bindings of the context at the mark.
    pub closed spec fn at_bindings(&self) -> nat {
        self.ctx as nat
    }

    /// The local names at the mark.
    pub closed spec fn at_names(&self) -> nat {
        self.names as nat
    }

    /// The facts at the mark.
    pub closed spec fn at_facts(&self) -> nat {
        self.facts as nat
    }

    /// How many facts were known at the mark.
    pub fn facts(&self) -> (result: usize)
        ensures
            result == self.at_facts(),
    {
        self.facts
    }
}

/// The claims a type carries, in order: its own when it is a proof, and
/// those of each field of a tuple.
pub open spec fn carried(ty: Type) -> Seq<TermView>
    decreases ty,
{
    match ty {
        Type::Proof(claim) => seq![(*claim)@],
        Type::Tuple(fields) => fields_carried(fields@),
        _ => Seq::empty(),
    }
}

/// The claims the fields of a tuple carry, field after field.
pub open spec fn fields_carried(fields: Seq<Type>) -> Seq<TermView>
    decreases fields,
{
    if fields.len() == 0 {
        Seq::empty()
    } else {
        fields_carried(fields.drop_last()) + carried(fields.last())
    }
}

/// The names a pattern binds, in order.
pub open spec fn pattern_names(pattern: ast::Pattern) -> Seq<Seq<char>>
    decreases pattern,
{
    match pattern.kind {
        ast::PatternKind::Name { name, .. } => seq![name.text@],
        ast::PatternKind::Group(inner) => pattern_names(*inner),
        ast::PatternKind::Tuple(parts) => patterns_names(parts@),
        ast::PatternKind::Struct { fields, .. } => fields_names(fields@),
        ast::PatternKind::Variant { arguments, .. } => match arguments {
            Some(parts) => patterns_names(parts@),
            None => Seq::empty(),
        },
        _ => Seq::empty(),
    }
}

/// The names patterns bind, pattern after pattern.
pub open spec fn patterns_names(patterns: Seq<ast::Pattern>) -> Seq<Seq<char>>
    decreases patterns,
{
    if patterns.len() == 0 {
        Seq::empty()
    } else {
        patterns_names(patterns.drop_last()) + pattern_names(patterns.last())
    }
}

/// The names the patterns of fields bind, field after field.
pub open spec fn fields_names(fields: Seq<ast::PatternField>) -> Seq<Seq<char>>
    decreases fields,
{
    if fields.len() == 0 {
        Seq::empty()
    } else {
        fields_names(fields.drop_last()) + pattern_names(fields.last().pattern)
    }
}

/// The scope of the function being elaborated.
pub struct Env {
    /// The diagnostics reported so far, in order.
    pub diagnostics: Vec<Diagnostic>,
    /// The context the names and facts are declared in.
    pub ctx: crate::term::Context,
    /// The local names in scope, the latest last.
    pub names: Vec<Local>,
    /// What is known, the latest last.
    pub facts: Vec<Fact>,
    /// How to print each identity: a name.
    pub labels: HashMap<u64, String>,
    /// The type of the `impl` block whose function is being elaborated,
    /// which `Self` names.
    pub owner: Option<String>,
}

/// Whether the latest name is the one that index holds: the local names
/// after it are all other names.
pub open spec fn latest(names: Seq<Local>, index: int, name: Seq<char>) -> bool {
    &&& 0 <= index < names.len()
    &&& names[index].name@ == name
    &&& forall|j: int| index < j < names.len() ==> (#[trigger] names[j]).name@ != name
}

/// A name just brought into scope is found as itself: after a local is
/// pushed onto the names in scope, the latest local of its name is that
/// local, whatever was in scope before; a lookup of another name finds what
/// it found before.
pub proof fn lemma_latest_after_push(names: Seq<Local>, local: Local, name: Seq<char>, index: int)
    ensures
        latest(names.push(local), index, local.name@) <==> index == names.len(),
        name != local.name@ ==> (latest(names.push(local), index, name) <==> latest(names, index, name)),
{
    let after = names.push(local);
    if index == names.len() {
        assert(after[index] == local);
    }
    if latest(after, index, local.name@) && index != names.len() {
        assert(after[names.len() as int].name@ == local.name@);
    }
    if name != local.name@ {
        if latest(names, index, name) {
            assert(after[index] == names[index]);
            assert forall|j: int| index < j < after.len() implies (#[trigger] after[j]).name@ != name by {
                if j < names.len() {
                    assert(after[j] == names[j]);
                }
            }
        }
        if latest(after, index, name) {
            assert(after[names.len() as int] == local);
            assert(after[index] == names[index]);
            assert forall|j: int| index < j < names.len() implies (#[trigger] names[j]).name@ != name by {
                assert(after[j] == names[j]);
            }
        }
    }
}

/// What `bind` and `declare` promise a later `lookup`: once a name is
/// bound with a type, the latest local of that name has that type.
pub proof fn lemma_bound_type_found(before: Seq<Local>, after: Seq<Local>, ty: Type, index: int)
    requires
        after.len() == before.len() + 1,
        after.subrange(0, before.len() as int) == before,
        same_term_type(ty, after.last().ty),
        latest(after, index, after.last().name@),
    ensures
        index == before.len(),
        same_term_type(ty, after[index].ty),
{
    assert(after =~= before.push(after.last()));
    lemma_latest_after_push(before, after.last(), after.last().name@, index);
}

/// Whether the diagnostics after are those before and one more: the error
/// `L0300` reporting that the checker rejected something the elaborator
/// built, with the checker's message, at the span, with the note that it is
/// the elaborator's gap.
pub open spec fn internal_reported(before: Seq<Diagnostic>, after: Seq<Diagnostic>, error: Seq<char>, span: Span) -> bool {
    let reported = after.last();
    &&& after.len() == before.len() + 1
    &&& after.subrange(0, before.len() as int) == before
    &&& reported.level == Level::Error
    &&& reported.code == "L0300"
    &&& reported.message@ == "the checker rejected this: "@ + error
    &&& reported.labels@.len() == 1
    &&& reported.labels@[0].span == span
    &&& reported.labels@[0].primary
    &&& reported.notes@ == seq![reported.notes@[0]]
    &&& reported.notes@[0]@ == "this is a gap in the elaborator's own checks; the program was not accepted"@
}

impl Env {
    /// An empty scope.
    pub fn new(owner: Option<String>) -> (result: Env)
        ensures
            result.diagnostics@.len() == 0,
            result.names@.len() == 0,
            result.facts@.len() == 0,
            result.ctx.len() == 0,
            result.owner == owner,
    {
        Env {
            diagnostics: Vec::new(),
            ctx: crate::term::Context::new(),
            names: Vec::new(),
            facts: Vec::new(),
            labels: HashMap::new(),
            owner,
        }
    }

    /// Reports an error.
    pub fn error(&mut self, code: &'static str, message: String, span: Span)
        ensures
            final(self).diagnostics@.len() == old(self).diagnostics@.len() + 1,
            final(self).diagnostics@.subrange(0, old(self).diagnostics@.len() as int) == old(self).diagnostics@,
            fresh(final(self).diagnostics@.last(), Level::Error, code, message, span),
            final(self).names == old(self).names,
            final(self).facts == old(self).facts,
            final(self).ctx == old(self).ctx,
            final(self).labels == old(self).labels,
            final(self).owner == old(self).owner,
    {
        let ghost before = self.diagnostics@;
        self.diagnostics.push(Diagnostic::error(code, message, span));
        assert(self.diagnostics@.subrange(0, before.len() as int) =~= before);
    }

    /// Reports an error and fails.
    pub fn fail<T>(&mut self, code: &'static str, message: String, span: Span) -> (result: Result<T, ()>)
        ensures
            result is Err,
            final(self).diagnostics@.len() == old(self).diagnostics@.len() + 1,
            final(self).diagnostics@.subrange(0, old(self).diagnostics@.len() as int) == old(self).diagnostics@,
            fresh(final(self).diagnostics@.last(), Level::Error, code, message, span),
            final(self).names == old(self).names,
            final(self).facts == old(self).facts,
            final(self).ctx == old(self).ctx,
            final(self).labels == old(self).labels,
            final(self).owner == old(self).owner,
    {
        self.error(code, message, span);
        Err(())
    }

    /// A rejection, by the checker, of something the elaborator built. The
    /// user did nothing wrong that an earlier, better message should not
    /// have caught.
    pub fn internal<T>(&mut self, error: String, span: Span) -> (result: Result<T, ()>)
        ensures
            result is Err,
            internal_reported(old(self).diagnostics@, final(self).diagnostics@, error@, span),
            final(self).names == old(self).names,
            final(self).facts == old(self).facts,
            final(self).ctx == old(self).ctx,
            final(self).labels == old(self).labels,
            final(self).owner == old(self).owner,
    {
        let mut message = String::from_str("the checker rejected this: ");
        message.append(error.as_str());
        let note = String::from_str("this is a gap in the elaborator's own checks; the program was not accepted");
        let reported = Diagnostic::error("L0300", message, span).note(note);
        let ghost before = self.diagnostics@;
        self.diagnostics.push(reported);
        assert(self.diagnostics@.subrange(0, before.len() as int) =~= before);
        assert(self.diagnostics@.last().notes@ =~= seq![self.diagnostics@.last().notes@[0]]);
        Err(())
    }

    /// The value of a result of the checker, or its rejection reported.
    pub fn kernel<T>(&mut self, result: Result<T, String>, span: Span) -> (outcome: Result<T, ()>)
        ensures
            match result {
                Ok(value) => outcome == Ok::<T, ()>(value) && *final(self) == *old(self),
                Err(error) => {
                    &&& outcome is Err
                    &&& internal_reported(old(self).diagnostics@, final(self).diagnostics@, error@, span)
                    &&& final(self).names == old(self).names
                    &&& final(self).facts == old(self).facts
                    &&& final(self).ctx == old(self).ctx
                    &&& final(self).labels == old(self).labels
                    &&& final(self).owner == old(self).owner
                },
            },
    {
        match result {
            Ok(value) => Ok(value),
            Err(error) => self.internal(error, span),
        }
    }

    /// A type's name as written, with `Self` read as the type of the `impl`
    /// block being elaborated.
    pub fn type_text(&self, name: &ast::Name) -> (result: String)
        ensures
            result@ == match self.owner {
                Some(owner) => if name.text@ == "Self"@ {
                    owner@
                } else {
                    name.text@
                },
                None => name.text@,
            },
    {
        match &self.owner {
            Some(owner) => {
                if same_text(name.text.as_str(), "Self") {
                    owner.clone()
                } else {
                    name.text.clone()
                }
            },
            None => name.text.clone(),
        }
    }

    /// A point to return to.
    pub fn mark(&self) -> (result: Mark)
        ensures
            result.at_bindings() == self.ctx.len(),
            result.at_names() == self.names@.len(),
            result.at_facts() == self.facts@.len(),
    {
        Mark { ctx: self.ctx.checkpoint(), names: self.names.len(), facts: self.facts.len() }
    }

    /// Ends a scope whose bindings and facts end with it: a branch, an arm,
    /// a loop body, a quantifier.
    pub fn close(&mut self, mark: Mark)
        ensures
            final(self).ctx.seq() == if mark.at_bindings() < old(self).ctx.len() {
                old(self).ctx.seq().subrange(0, mark.at_bindings() as int)
            } else {
                old(self).ctx.seq()
            },
            final(self).names@ == if mark.at_names() < old(self).names@.len() {
                old(self).names@.subrange(0, mark.at_names() as int)
            } else {
                old(self).names@
            },
            final(self).facts@ == if mark.at_facts() < old(self).facts@.len() {
                old(self).facts@.subrange(0, mark.at_facts() as int)
            } else {
                old(self).facts@
            },
            final(self).diagnostics == old(self).diagnostics,
            final(self).labels == old(self).labels,
            final(self).owner == old(self).owner,
    {
        self.ctx.rollback(mark.ctx);
        self.names.truncate(mark.names);
        self.facts.truncate(mark.facts);
    }

    /// Ends a block whose statements the checker splices into the enclosing
    /// sequence: the names and facts go out of scope, and the identities
    /// they spoke of remain declared.
    pub fn close_names(&mut self, mark: Mark)
        ensures
            final(self).ctx == old(self).ctx,
            final(self).names@ == if mark.at_names() < old(self).names@.len() {
                old(self).names@.subrange(0, mark.at_names() as int)
            } else {
                old(self).names@
            },
            final(self).facts@ == if mark.at_facts() < old(self).facts@.len() {
                old(self).facts@.subrange(0, mark.at_facts() as int)
            } else {
                old(self).facts@
            },
            final(self).diagnostics == old(self).diagnostics,
            final(self).labels == old(self).labels,
            final(self).owner == old(self).owner,
    {
        self.names.truncate(mark.names);
        self.facts.truncate(mark.facts);
    }

    /// The latest local of a name.
    pub fn lookup(&self, name: &str) -> (result: Option<&Local>)
        ensures
            match result {
                Some(local) => exists|index: int| latest(self.names@, index, name@) && *local == self.names@[index],
                None => forall|index: int| 0 <= index < self.names@.len() ==> (#[trigger] self.names@[index]).name@ != name@,
            },
    {
        let mut index = self.names.len();
        while index > 0
            invariant
                index <= self.names@.len(),
                forall|j: int| index <= j < self.names@.len() ==> (#[trigger] self.names@[j]).name@ != name@,
            decreases index,
        {
            index -= 1;
            if same_text(self.names[index].name.as_str(), name) {
                assert(latest(self.names@, index as int, name@));
                return Some(&self.names[index]);
            }
        }
        None
    }

    /// Makes `name` refer to an identity the context already holds, and
    /// records what its type lets one conclude.
    pub fn bind(&mut self, name: &str, id: u64, ty: &Type, logical: bool)
        ensures
            final(self).names@.len() == old(self).names@.len() + 1,
            final(self).names@.subrange(0, old(self).names@.len() as int) == old(self).names@,
            final(self).names@.last().name@ == name@,
            final(self).names@.last().id == id,
            same_term_type(*ty, final(self).names@.last().ty),
            !final(self).names@.last().poisoned,
            final(self).names@.last().logical == logical,
            final(self).labels@ == old(self).labels@.insert(id, final(self).labels@[id]),
            final(self).labels@[id]@ == name@,
            learned(old(self).facts@, final(self).facts@, TermView::Var(id as nat), *ty),
            final(self).ctx == old(self).ctx,
            final(self).diagnostics == old(self).diagnostics,
    {
        let label = String::from_str(name);
        self.labels.insert(id, label);
        let ghost before = self.names@;
        self.names.push(Local { name: String::from_str(name), id, ty: copy_type(ty), poisoned: false, logical });
        assert(self.names@.subrange(0, before.len() as int) =~= before);
        self.learn_from(&Term::Var(id), ty);
    }

    /// Brings the names of a pattern into scope after its `let` failed.
    pub fn poison(&mut self, pattern: &ast::Pattern)
        ensures
            final(self).names@.len() == old(self).names@.len() + pattern_names(*pattern).len(),
            final(self).names@.subrange(0, old(self).names@.len() as int) == old(self).names@,
            forall|k: int|
                0 <= k < pattern_names(*pattern).len() ==> {
                    &&& (#[trigger] final(self).names@[old(self).names@.len() + k]).name@ == pattern_names(*pattern)[k]
                    &&& final(self).names@[old(self).names@.len() + k].poisoned
                },
            final(self).facts == old(self).facts,
            final(self).ctx.seq() == old(self).ctx.seq(),
            final(self).diagnostics == old(self).diagnostics,
        decreases pattern,
    {
        match &pattern.kind {
            ast::PatternKind::Name { name, .. } => {
                let id = self.ctx.fresh();
                let ghost before = self.names@;
                self.names.push(
                    Local { name: name.text.clone(), id, ty: Type::Tuple(Vec::new()), poisoned: true, logical: false },
                );
                assert(self.names@.subrange(0, before.len() as int) =~= before);
            },
            ast::PatternKind::Group(inner) => self.poison(inner),
            ast::PatternKind::Tuple(parts) => self.poison_all(parts),
            ast::PatternKind::Struct { fields, .. } => self.poison_fields(fields),
            ast::PatternKind::Variant { arguments, .. } => {
                if let Some(parts) = arguments {
                    self.poison_all(parts);
                }
            },
            _ => {},
        }
    }

    /// Brings the names of patterns into scope, pattern after pattern.
    fn poison_all(&mut self, patterns: &Vec<ast::Pattern>)
        ensures
            final(self).names@.len() == old(self).names@.len() + patterns_names(patterns@).len(),
            final(self).names@.subrange(0, old(self).names@.len() as int) == old(self).names@,
            forall|k: int|
                0 <= k < patterns_names(patterns@).len() ==> {
                    &&& (#[trigger] final(self).names@[old(self).names@.len() + k]).name@ == patterns_names(patterns@)[k]
                    &&& final(self).names@[old(self).names@.len() + k].poisoned
                },
            final(self).facts == old(self).facts,
            final(self).ctx.seq() == old(self).ctx.seq(),
            final(self).diagnostics == old(self).diagnostics,
        decreases patterns,
    {
        let ghost start = self.names@;
        let mut index: usize = 0;
        while index < patterns.len()
            invariant
                index <= patterns@.len(),
                self.names@.len() == start.len() + patterns_names(patterns@.subrange(0, index as int)).len(),
                self.names@.subrange(0, start.len() as int) == start,
                forall|k: int|
                    0 <= k < patterns_names(patterns@.subrange(0, index as int)).len() ==> {
                        &&& (#[trigger] self.names@[start.len() + k]).name@ == patterns_names(
                            patterns@.subrange(0, index as int),
                        )[k]
                        &&& self.names@[start.len() + k].poisoned
                    },
                self.facts == old(self).facts,
                self.ctx.seq() == old(self).ctx.seq(),
                self.diagnostics == old(self).diagnostics,
                start == old(self).names@,
            decreases patterns.len() - index,
        {
            let ghost middle = self.names@;
            let ghost done = patterns_names(patterns@.subrange(0, index as int));
            self.poison(&patterns[index]);
            proof {
                let next = patterns@.subrange(0, index + 1);
                assert(next.drop_last() =~= patterns@.subrange(0, index as int));
                assert(next.last() == patterns@[index as int]);
                let added = pattern_names(patterns@[index as int]);
                assert(patterns_names(next) == done + added);
                assert forall|k: int| 0 <= k < patterns_names(next).len() implies {
                    &&& (#[trigger] self.names@[start.len() + k]).name@ == patterns_names(next)[k]
                    &&& self.names@[start.len() + k].poisoned
                } by {
                    if k < done.len() {
                        assert(self.names@[start.len() + k] == middle[start.len() + k]);
                    } else {
                        assert(self.names@[middle.len() + (k - done.len())] == self.names@[start.len() + k]);
                    }
                }
                assert(self.names@.subrange(0, start.len() as int) =~= start) by {
                    assert(self.names@.subrange(0, middle.len() as int) == middle);
                    assert forall|i: int| 0 <= i < start.len() implies self.names@[i] == start[i] by {
                        assert(self.names@[i] == middle[i]);
                    }
                }
            }
            index += 1;
        }
        assert(patterns@.subrange(0, patterns@.len() as int) =~= patterns@);
    }

    /// Brings the names of the patterns of fields into scope, field after
    /// field.
    fn poison_fields(&mut self, fields: &Vec<ast::PatternField>)
        ensures
            final(self).names@.len() == old(self).names@.len() + fields_names(fields@).len(),
            final(self).names@.subrange(0, old(self).names@.len() as int) == old(self).names@,
            forall|k: int|
                0 <= k < fields_names(fields@).len() ==> {
                    &&& (#[trigger] final(self).names@[old(self).names@.len() + k]).name@ == fields_names(fields@)[k]
                    &&& final(self).names@[old(self).names@.len() + k].poisoned
                },
            final(self).facts == old(self).facts,
            final(self).ctx.seq() == old(self).ctx.seq(),
            final(self).diagnostics == old(self).diagnostics,
        decreases fields,
    {
        let ghost start = self.names@;
        let mut index: usize = 0;
        while index < fields.len()
            invariant
                index <= fields@.len(),
                self.names@.len() == start.len() + fields_names(fields@.subrange(0, index as int)).len(),
                self.names@.subrange(0, start.len() as int) == start,
                forall|k: int|
                    0 <= k < fields_names(fields@.subrange(0, index as int)).len() ==> {
                        &&& (#[trigger] self.names@[start.len() + k]).name@ == fields_names(
                            fields@.subrange(0, index as int),
                        )[k]
                        &&& self.names@[start.len() + k].poisoned
                    },
                self.facts == old(self).facts,
                self.ctx.seq() == old(self).ctx.seq(),
                self.diagnostics == old(self).diagnostics,
                start == old(self).names@,
            decreases fields.len() - index,
        {
            let ghost middle = self.names@;
            let ghost done = fields_names(fields@.subrange(0, index as int));
            self.poison(&fields[index].pattern);
            proof {
                let next = fields@.subrange(0, index + 1);
                assert(next.drop_last() =~= fields@.subrange(0, index as int));
                assert(next.last() == fields@[index as int]);
                let added = pattern_names(fields@[index as int].pattern);
                assert(fields_names(next) == done + added);
                assert forall|k: int| 0 <= k < fields_names(next).len() implies {
                    &&& (#[trigger] self.names@[start.len() + k]).name@ == fields_names(next)[k]
                    &&& self.names@[start.len() + k].poisoned
                } by {
                    if k < done.len() {
                        assert(self.names@[start.len() + k] == middle[start.len() + k]);
                    } else {
                        assert(self.names@[middle.len() + (k - done.len())] == self.names@[start.len() + k]);
                    }
                }
                assert(self.names@.subrange(0, start.len() as int) =~= start) by {
                    assert(self.names@.subrange(0, middle.len() as int) == middle);
                    assert forall|i: int| 0 <= i < start.len() implies self.names@[i] == start[i] by {
                        assert(self.names@[i] == middle[i]);
                    }
                }
            }
            index += 1;
        }
        assert(fields@.subrange(0, fields@.len() as int) =~= fields@);
    }

    /// Declares a variable in the context and brings it into scope.
    pub fn declare(&mut self, name: &str, id: u64, ty: &Type, logical: bool, span: Span) -> (result: Result<(), ()>)
        ensures
            result is Ok,
            final(self).ctx.len() == old(self).ctx.len() + 1,
            final(self).names@.len() == old(self).names@.len() + 1,
            final(self).names@.subrange(0, old(self).names@.len() as int) == old(self).names@,
            final(self).names@.last().name@ == name@,
            final(self).names@.last().id == id,
            same_term_type(*ty, final(self).names@.last().ty),
            final(self).names@.last().logical == logical,
            learned(old(self).facts@, final(self).facts@, TermView::Var(id as nat), *ty),
            final(self).diagnostics == old(self).diagnostics,
    {
        self.ctx.declare(id, copy_type(ty));
        self.bind(name, id, ty, logical);
        Ok(())
    }

    /// Assumes a claim under a hypothesis, and knows it.
    pub fn suppose(&mut self, id: u64, claim: Term, span: Span) -> (result: Result<(), ()>)
        ensures
            result is Ok,
            final(self).ctx.len() == old(self).ctx.len() + 1,
            final(self).facts@.len() == old(self).facts@.len() + 1,
            final(self).facts@.subrange(0, old(self).facts@.len() as int) == old(self).facts@,
            final(self).facts@.last().claim@ == claim@,
            final(self).facts@.last().proof == Proof::Hyp(id),
            !final(self).facts@.last().definition,
            final(self).names == old(self).names,
            final(self).diagnostics == old(self).diagnostics,
    {
        self.ctx.suppose(id, claim.copy());
        let ghost before = self.facts@;
        self.facts.push(Fact::new(Proof::Hyp(id), claim));
        assert(self.facts@.subrange(0, before.len() as int) =~= before);
        Ok(())
    }

    /// The facts a value carries: itself when it is a proof, and the proof
    /// fields of a tuple, each about the value's own fields.
    pub fn learn_from(&mut self, value: &Term, ty: &Type)
        ensures
            learned(old(self).facts@, final(self).facts@, value@, *ty),
            final(self).names == old(self).names,
            final(self).labels == old(self).labels,
            final(self).ctx == old(self).ctx,
            final(self).diagnostics == old(self).diagnostics,
        decreases ty,
    {
        match ty {
            Type::Proof(claim) => {
                let ghost before = self.facts@;
                self.facts.push(Fact::new(Proof::OfTerm(value.copy()), claim.copy()));
                assert(self.facts@.subrange(0, before.len() as int) =~= before);
                assert(carried(*ty) == seq![(**claim)@]);
                assert(self.facts@[before.len() as int].claim@ == (**claim)@);

            },
            Type::Tuple(fields) => {
                let ghost before = self.facts@;
                self.learn_from_fields(value, fields);
                proof {
                    assert(carried(*ty) == fields_carried(fields@));
                    assert forall|i: int| before.len() <= i < self.facts@.len() implies (#[trigger] self.facts@[i]).claim@
                        == carried(*ty)[i - before.len()] by {
                        let k = i - before.len();
                        assert(self.facts@[before.len() + k] == self.facts@[i]);
                    }
                }
            },
            _ => {
                assert(self.facts@.subrange(0, self.facts@.len() as int) =~= self.facts@);
            },
        }
    }

    /// The facts the fields of a tuple carry, field after field.
    fn learn_from_fields(&mut self, value: &Term, fields: &Vec<Type>)
        ensures
            final(self).facts@.len() == old(self).facts@.len() + fields_carried(fields@).len(),
            final(self).facts@.subrange(0, old(self).facts@.len() as int) == old(self).facts@,
            forall|k: int|
                0 <= k < fields_carried(fields@).len() ==> (#[trigger] final(self).facts@[old(self).facts@.len()
                    + k]).claim@ == fields_carried(fields@)[k],
            final(self).names == old(self).names,
            final(self).labels == old(self).labels,
            final(self).ctx == old(self).ctx,
            final(self).diagnostics == old(self).diagnostics,
        decreases fields,
    {
        let ghost start = self.facts@;
        let mut index: usize = 0;
        while index < fields.len()
            invariant
                index <= fields@.len(),
                self.facts@.len() == start.len() + fields_carried(fields@.subrange(0, index as int)).len(),
                self.facts@.subrange(0, start.len() as int) == start,
                forall|k: int|
                    0 <= k < fields_carried(fields@.subrange(0, index as int)).len() ==> (#[trigger] self.facts@[start.len()
                        + k]).claim@ == fields_carried(fields@.subrange(0, index as int))[k],
                self.names == old(self).names,
                self.labels == old(self).labels,
                self.ctx == old(self).ctx,
                self.diagnostics == old(self).diagnostics,
                start == old(self).facts@,
            decreases fields.len() - index,
        {
            let ghost middle = self.facts@;
            let ghost done = fields_carried(fields@.subrange(0, index as int));
            let field = Term::Proj(Box::new(value.copy()), index);
            self.learn_from(&field, &fields[index]);
            proof {
                let next = fields@.subrange(0, index + 1);
                assert(next.drop_last() =~= fields@.subrange(0, index as int));
                assert(next.last() == fields@[index as int]);
                let added = carried(fields@[index as int]);
                assert(fields_carried(next) == done + added);
                assert forall|k: int| 0 <= k < fields_carried(next).len() implies (#[trigger] self.facts@[start.len()
                    + k]).claim@ == fields_carried(next)[k] by {
                    if k < done.len() {
                        assert(self.facts@[start.len() + k] == middle[start.len() + k]);
                    } else {
                        assert(self.facts@[middle.len() + (k - done.len())] == self.facts@[start.len() + k]);
                    }
                }
                assert(self.facts@.subrange(0, start.len() as int) =~= start) by {
                    assert forall|i: int| 0 <= i < start.len() implies self.facts@[i] == start[i] by {
                        assert(self.facts@[i] == middle[i]);
                    }
                }
            }
            index += 1;
        }
        assert(fields@.subrange(0, fields@.len() as int) =~= fields@);
    }
}

/// Whether the facts after learning from a value of a type are those before
/// and then one for each claim the type carries, in order.
pub open spec fn learned(before: Seq<Fact>, after: Seq<Fact>, value: TermView, ty: Type) -> bool {
    &&& after.len() == before.len() + carried(ty).len()
    &&& after.subrange(0, before.len() as int) == before
    &&& forall|i: int| before.len() <= i < after.len() ==> (#[trigger] after[i]).claim@ == carried(ty)[i - before.len()]
}

/// Closing a scope at a mark forgets exactly what was bound since: the
/// names bound after the mark are gone and those before it stay.
pub proof fn lemma_close_forgets(at_mark: Seq<Local>, bound: Seq<Local>)
    ensures
        (at_mark + bound).subrange(0, at_mark.len() as int) == at_mark,
{
    assert((at_mark + bound).subrange(0, at_mark.len() as int) =~= at_mark);
}

} // verus!
