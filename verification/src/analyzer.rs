//! The schema with its lookups, as every analysis takes it.

use vstd::prelude::*;

use crate::schema::{
    block_named, module_named, value_set_named, BlockType, ModuleType, RefKind, Schema, ValueSet,
};
use crate::text::{eq_ci, same_ci, texts};

verus! {

/// A schema to analyse documents with.
pub struct Analyzer {
    pub schema: Schema,
    /// Accept percentages that lack the `%` sign.
    pub allow_bare_percentages: bool,
}

/// The names of the engine-made definitions of one kind, in order.
pub open spec fn builtin_list(
    builtins: Seq<crate::schema::BuiltinDef>,
    kind: RefKind,
) -> Seq<Seq<char>>
    decreases builtins.len(),
{
    if builtins.len() == 0 {
        Seq::empty()
    } else {
        let rest = builtin_list(builtins.drop_last(), kind);
        if builtins.last().ref_kind == kind {
            rest.push(builtins.last().name@)
        } else {
            rest
        }
    }
}

impl Analyzer {
    pub open spec fn block_of(&self, name: Seq<char>) -> Option<BlockType> {
        block_named(self.schema.blocks@, name)
    }

    pub open spec fn module_of(&self, name: Seq<char>) -> Option<ModuleType> {
        module_named(self.schema.modules@, name)
    }

    pub open spec fn value_set_of(&self, id: Seq<char>) -> Option<ValueSet> {
        value_set_named(self.schema.value_sets@, id)
    }

    /// Whether the engine makes a definition of that kind and name.
    pub open spec fn builtin(&self, kind: RefKind, name: Seq<char>) -> bool {
        exists|i: int|
            0 <= i < self.schema.builtins@.len() && self.schema.builtins@[i].ref_kind == kind
                && same_ci((#[trigger] self.schema.builtins@[i]).name@, name)
    }

    pub fn new(schema: Schema) -> (r: Analyzer)
        ensures
            r.schema == schema,
            !r.allow_bare_percentages,
    {
        Analyzer { schema, allow_bare_percentages: false }
    }

    pub fn set_allow_bare_percentages(&mut self, allow: bool)
        ensures
            *final(self) == (Analyzer { allow_bare_percentages: allow, ..*old(self) }),
    {
        self.allow_bare_percentages = allow;
    }

    /// The block type of that name.
    pub fn block(&self, name: &str) -> (r: Option<&BlockType>)
        ensures
            match r {
                Some(b) => self.block_of(name@) == Some(*b),
                None => self.block_of(name@) is None,
            },
    {
        self.schema.index().block(name)
    }

    /// The module type of that name.
    pub fn module(&self, name: &str) -> (r: Option<&ModuleType>)
        ensures
            match r {
                Some(m) => self.module_of(name@) == Some(*m),
                None => self.module_of(name@) is None,
            },
    {
        self.schema.index().module(name)
    }

    /// The value set of that id.
    pub fn value_set(&self, id: &str) -> (r: Option<&ValueSet>)
        ensures
            match r {
                Some(v) => self.value_set_of(id@) == Some(*v),
                None => self.value_set_of(id@) is None,
            },
    {
        self.schema.index().value_set(id)
    }

    /// Whether the engine makes a definition of that kind and name.
    pub fn is_builtin(&self, kind: RefKind, name: &str) -> (r: bool)
        ensures
            r == self.builtin(kind, name@),
    {
        let builtins = &self.schema.builtins;
        let mut i: usize = 0;
        while i < builtins.len()
            invariant
                i <= builtins.len(),
                builtins@ == self.schema.builtins@,
                forall|k: int|
                    0 <= k < i ==> !(self.schema.builtins@[k].ref_kind == kind && same_ci(
                        (#[trigger] self.schema.builtins@[k]).name@,
                        name@,
                    )),
            decreases builtins.len() - i,
        {
            if builtins[i].ref_kind == kind && eq_ci(builtins[i].name.as_str(), name) {
                return true;
            }
            i += 1;
        }
        false
    }

    /// The names of the engine-made definitions of one kind.
    pub fn builtin_names(&self, kind: RefKind) -> (r: Vec<String>)
        ensures
            texts(r@) == builtin_list(self.schema.builtins@, kind),
    {
        let builtins = &self.schema.builtins;
        let mut out: Vec<String> = Vec::new();
        let mut i: usize = 0;
        while i < builtins.len()
            invariant
                i <= builtins.len(),
                builtins@ == self.schema.builtins@,
                texts(out@) == builtin_list(builtins@.take(i as int), kind),
            decreases builtins.len() - i,
        {
            assert(builtins@.take(i + 1).drop_last() =~= builtins@.take(i as int));
            if builtins[i].ref_kind == kind {
                out.push(builtins[i].name.clone());
            }
            i += 1;
        }
        assert(builtins@.take(i as int) =~= builtins@);
        out
    }
}

} // verus!
