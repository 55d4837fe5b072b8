//! The definition builders: validated, immutable construction of the
//! schema value objects.
//!
//! Each builder collects optional field values and validates on
//! `build`: a missing required field, an empty identifier, or a
//! conflicting flag combination yields a `ValidationError` instead of a
//! value. Construction never inserts into the store; ill-formed graphs
//! can therefore still be assembled deliberately to exercise the
//! resolver's error reporting.

use vstd::prelude::*;
use crate::arena::Declaration;
use crate::ir::{IRKind, ObjKindIdent};

verus! {

/// Why a builder refused to construct a value.
#[derive(Debug, Clone, Copy, PartialEq, Eq, Structural)]
pub enum ValidationError {
    /// The declared identifier is the empty string.
    EmptyIdentifier,
    /// A required field was never set.
    UninitializedField,
    /// The declared kind contradicts the abstractness flag.
    ConflictingFlags,
}

/// The value of an optional flag, not set meaning false.
pub open spec fn obool(o: Option<bool>) -> bool {
    match o {
        Some(b) => b,
        None => false,
    }
}

/// How a property resolves: a stored concrete value, a computed one,
/// or an abstract declaration to be made concrete by extension.
#[derive(Debug, Clone, Copy, PartialEq, Eq, Structural)]
pub enum PropertyKind {
    Concrete,
    Computable,
    Abstract,
}

/// How a link resolves: a stored concrete target, a computed one, or
/// an abstract declaration to be made concrete by extension.
#[derive(Debug, Clone, Copy, PartialEq, Eq, Structural)]
pub enum LinkKind {
    Concrete,
    Computable,
    Abstract,
}

/// A module marker. Members associate with a module by name, so the
/// marker itself carries no state.
#[derive(Debug, Clone, Default)]
pub struct Module {}

/// A statement of a schema body: a tagged sum over the value objects.
#[derive(Debug, Clone)]
pub enum Statement {
    Using(Expression),
    Aliased(AliasExpr),
    Plain(Expression),
    Sub(Subcommand),
    Cons(Constraint),
}

/// A marker for types that can serve as a function scope.
pub trait FuncScope {

}

/// A named expression; the payload of defaults and computed members.
#[derive(Debug, Clone)]
pub struct Expression {
    pub ident: String,
}

/// Collects the fields of an `Expression` before validation.
#[derive(Debug, Clone)]
pub struct ExpressionBuilder {
    pub ident: Option<String>,
}

impl Default for ExpressionBuilder {
    /// A builder with nothing set.
    fn default() -> (r: ExpressionBuilder)
        ensures
            r.ident is None,
    {
        ExpressionBuilder {
            ident: None,
        }
    }
}

/// Whether the collected fields form a valid `Expression`.
pub open spec fn expression_build_ok(b: ExpressionBuilder) -> bool {
    b.ident is Some
        && b.ident->Some_0@.len() != 0
}

/// The error reported when the collected fields are invalid.
pub open spec fn expression_build_err(b: ExpressionBuilder) -> ValidationError {
    if b.ident is None {
        ValidationError::UninitializedField
    } else {
        ValidationError::EmptyIdentifier
    }
}

impl ExpressionBuilder {
    pub fn ident(self, value: &str) -> (r: ExpressionBuilder)
        ensures
            r.ident is Some && r.ident->Some_0@ == value@,
    {
        ExpressionBuilder { ident: Some(String::from_str(value)), ..self }
    }

    /// Validates the collected fields and constructs the value.
    pub fn build(self) -> (r: Result<Expression, ValidationError>)
        ensures
            match r {
                Ok(x) => expression_build_ok(self) && x.ident@ == self.ident->Some_0@,
                Err(e) => !expression_build_ok(self) && e == expression_build_err(self),
            },
    {
        let ident_v = match self.ident {
            Some(v) => v,
            None => {
                return Err(ValidationError::UninitializedField);
            },
        };
        if ident_v.as_str().is_empty() {
            return Err(ValidationError::EmptyIdentifier);
        }
        Ok(Expression {
            ident: ident_v,
        })
    }
}

/// A name/value annotation attached to a declaration.
#[derive(Debug, Clone)]
pub struct Annotation {
    pub ident: String,
    pub value: String,
}

/// Collects the fields of an `Annotation` before validation.
#[derive(Debug, Clone)]
pub struct AnnotationBuilder {
    pub ident: Option<String>,
    pub value: Option<String>,
}

impl Default for AnnotationBuilder {
    /// A builder with nothing set.
    fn default() -> (r: AnnotationBuilder)
        ensures
            r.ident is None,
            r.value is None,
    {
        AnnotationBuilder {
            ident: None,
            value: None,
        }
    }
}

/// Whether the collected fields form a valid `Annotation`.
pub open spec fn annotation_build_ok(b: AnnotationBuilder) -> bool {
    b.ident is Some
        && b.value is Some
        && b.ident->Some_0@.len() != 0
}

/// The error reported when the collected fields are invalid.
pub open spec fn annotation_build_err(b: AnnotationBuilder) -> ValidationError {
    if b.ident is None || b.value is None {
        ValidationError::UninitializedField
    } else {
        ValidationError::EmptyIdentifier
    }
}

impl AnnotationBuilder {
    pub fn ident(self, value: &str) -> (r: AnnotationBuilder)
        ensures
            r.ident is Some && r.ident->Some_0@ == value@,
            r.value == self.value,
    {
        AnnotationBuilder { ident: Some(String::from_str(value)), ..self }
    }

    pub fn value(self, value: &str) -> (r: AnnotationBuilder)
        ensures
            r.value is Some && r.value->Some_0@ == value@,
            r.ident == self.ident,
    {
        AnnotationBuilder { value: Some(String::from_str(value)), ..self }
    }

    /// Checks that the collected identifier is not empty.
    fn validate(&self) -> (r: Result<(), ValidationError>)
        requires
            self.ident is Some,
        ensures
            r is Ok <==> self.ident->Some_0@.len() != 0,
            r is Err ==> r->Err_0 == ValidationError::EmptyIdentifier,
    {
        match &self.ident {
            Some(s) => {
                if s.as_str().is_empty() {
                    Err(ValidationError::EmptyIdentifier)
                } else {
                    Ok(())
                }
            },
            None => Err(ValidationError::UninitializedField),
        }
    }

    /// Validates the collected fields and constructs the value.
    pub fn build(self) -> (r: Result<Annotation, ValidationError>)
        ensures
            match r {
                Ok(x) => annotation_build_ok(self) && x.ident@ == self.ident->Some_0@ && x.value@ == self.value->Some_0@,
                Err(e) => !annotation_build_ok(self) && e == annotation_build_err(self),
            },
    {
        if self.ident.is_none() || self.value.is_none() {
            return Err(ValidationError::UninitializedField);
        }
        match self.validate() {
            Ok(()) => {},
            Err(e) => {
                return Err(e);
            },
        }
        let ident_v = match self.ident {
            Some(v) => v,
            None => {
                return Err(ValidationError::UninitializedField);
            },
        };
        let value_v = match self.value {
            Some(v) => v,
            None => {
                return Err(ValidationError::UninitializedField);
            },
        };
        Ok(Annotation {
            ident: ident_v,
            value: value_v,
        })
    }
}

/// The body of an alias, as data-definition or schema-definition text.
#[derive(Debug, Clone)]
pub struct AliasExpr {
    pub ddl: Option<String>,
    pub sdl: Option<String>,
}

/// Collects the fields of an `AliasExpr` before validation.
#[derive(Debug, Clone)]
pub struct AliasExprBuilder {
    pub ddl: Option<String>,
    pub sdl: Option<String>,
}

impl Default for AliasExprBuilder {
    /// A builder with nothing set.
    fn default() -> (r: AliasExprBuilder)
        ensures
            r.ddl is None,
            r.sdl is None,
    {
        AliasExprBuilder {
            ddl: None,
            sdl: None,
        }
    }
}

/// Whether the collected fields form a valid `AliasExpr`.
pub open spec fn aliasexpr_build_ok(b: AliasExprBuilder) -> bool {
    true
}

/// The error reported when the collected fields are invalid.
pub open spec fn aliasexpr_build_err(b: AliasExprBuilder) -> ValidationError {
    ValidationError::UninitializedField
}

impl AliasExprBuilder {
    pub fn ddl(self, value: &str) -> (r: AliasExprBuilder)
        ensures
            r.ddl is Some && r.ddl->Some_0@ == value@,
            r.sdl == self.sdl,
    {
        AliasExprBuilder { ddl: Some(String::from_str(value)), ..self }
    }

    pub fn sdl(self, value: &str) -> (r: AliasExprBuilder)
        ensures
            r.sdl is Some && r.sdl->Some_0@ == value@,
            r.ddl == self.ddl,
    {
        AliasExprBuilder { sdl: Some(String::from_str(value)), ..self }
    }

    /// Validates the collected fields and constructs the value.
    pub fn build(self) -> (r: Result<AliasExpr, ValidationError>)
        ensures
            match r {
                Ok(x) => aliasexpr_build_ok(self) && x.ddl == self.ddl && x.sdl == self.sdl,
                Err(e) => !aliasexpr_build_ok(self) && e == aliasexpr_build_err(self),
            },
    {
        Ok(AliasExpr {
            ddl: self.ddl,
            sdl: self.sdl,
        })
    }
}

/// A named alias over an expression body.
#[derive(Debug, Clone)]
pub struct Alias {
    pub ident: String,
    pub alias_expr: AliasExpr,
}

/// Collects the fields of an `Alias` before validation.
#[derive(Debug, Clone)]
pub struct AliasBuilder {
    pub ident: Option<String>,
    pub alias_expr: Option<AliasExpr>,
}

impl Default for AliasBuilder {
    /// A builder with nothing set.
    fn default() -> (r: AliasBuilder)
        ensures
            r.ident is None,
            r.alias_expr is None,
    {
        AliasBuilder {
            ident: None,
            alias_expr: None,
        }
    }
}

/// Whether the collected fields form a valid `Alias`.
pub open spec fn alias_build_ok(b: AliasBuilder) -> bool {
    b.ident is Some
        && b.alias_expr is Some
        && b.ident->Some_0@.len() != 0
}

/// The error reported when the collected fields are invalid.
pub open spec fn alias_build_err(b: AliasBuilder) -> ValidationError {
    if b.ident is None || b.alias_expr is None {
        ValidationError::UninitializedField
    } else {
        ValidationError::EmptyIdentifier
    }
}

impl AliasBuilder {
    pub fn ident(self, value: &str) -> (r: AliasBuilder)
        ensures
            r.ident is Some && r.ident->Some_0@ == value@,
            r.alias_expr == self.alias_expr,
    {
        AliasBuilder { ident: Some(String::from_str(value)), ..self }
    }

    pub fn alias_expr(self, value: AliasExpr) -> (r: AliasBuilder)
        ensures
            r.alias_expr == Some(value),
            r.ident == self.ident,
    {
        AliasBuilder { alias_expr: Some(value), ..self }
    }

    /// Checks that the collected identifier is not empty.
    fn validate(&self) -> (r: Result<(), ValidationError>)
        requires
            self.ident is Some,
        ensures
            r is Ok <==> self.ident->Some_0@.len() != 0,
            r is Err ==> r->Err_0 == ValidationError::EmptyIdentifier,
    {
        match &self.ident {
            Some(s) => {
                if s.as_str().is_empty() {
                    Err(ValidationError::EmptyIdentifier)
                } else {
                    Ok(())
                }
            },
            None => Err(ValidationError::UninitializedField),
        }
    }

    /// Validates the collected fields and constructs the value.
    pub fn build(self) -> (r: Result<Alias, ValidationError>)
        ensures
            match r {
                Ok(x) => alias_build_ok(self) && x.ident@ == self.ident->Some_0@ && x.alias_expr == self.alias_expr->Some_0,
                Err(e) => !alias_build_ok(self) && e == alias_build_err(self),
            },
    {
        if self.ident.is_none() || self.alias_expr.is_none() {
            return Err(ValidationError::UninitializedField);
        }
        match self.validate() {
            Ok(()) => {},
            Err(e) => {
                return Err(e);
            },
        }
        let ident_v = match self.ident {
            Some(v) => v,
            None => {
                return Err(ValidationError::UninitializedField);
            },
        };
        let alias_expr_v = match self.alias_expr {
            Some(v) => v,
            None => {
                return Err(ValidationError::UninitializedField);
            },
        };
        Ok(Alias {
            ident: ident_v,
            alias_expr: alias_expr_v,
        })
    }
}

/// A named index, optionally annotated.
#[derive(Debug, Clone)]
pub struct Index {
    pub ident: String,
    pub alias: Option<Annotation>,
}

/// Collects the fields of an `Index` before validation.
#[derive(Debug, Clone)]
pub struct IndexBuilder {
    pub ident: Option<String>,
    pub alias: Option<Annotation>,
}

impl Default for IndexBuilder {
    /// A builder with nothing set.
    fn default() -> (r: IndexBuilder)
        ensures
            r.ident is None,
            r.alias is None,
    {
        IndexBuilder {
            ident: None,
            alias: None,
        }
    }
}

/// Whether the collected fields form a valid `Index`.
pub open spec fn index_build_ok(b: IndexBuilder) -> bool {
    b.ident is Some
        && b.ident->Some_0@.len() != 0
}

/// The error reported when the collected fields are invalid.
pub open spec fn index_build_err(b: IndexBuilder) -> ValidationError {
    if b.ident is None {
        ValidationError::UninitializedField
    } else {
        ValidationError::EmptyIdentifier
    }
}

impl IndexBuilder {
    pub fn ident(self, value: &str) -> (r: IndexBuilder)
        ensures
            r.ident is Some && r.ident->Some_0@ == value@,
            r.alias == self.alias,
    {
        IndexBuilder { ident: Some(String::from_str(value)), ..self }
    }

    pub fn alias(self, value: Annotation) -> (r: IndexBuilder)
        ensures
            r.alias == Some(value),
            r.ident == self.ident,
    {
        IndexBuilder { alias: Some(value), ..self }
    }

    /// Validates the collected fields and constructs the value.
    pub fn build(self) -> (r: Result<Index, ValidationError>)
        ensures
            match r {
                Ok(x) => index_build_ok(self) && x.ident@ == self.ident->Some_0@ && x.alias == self.alias,
                Err(e) => !index_build_ok(self) && e == index_build_err(self),
            },
    {
        let ident_v = match self.ident {
            Some(v) => v,
            None => {
                return Err(ValidationError::UninitializedField);
            },
        };
        if ident_v.as_str().is_empty() {
            return Err(ValidationError::EmptyIdentifier);
        }
        Ok(Index {
            ident: ident_v,
            alias: self.alias,
        })
    }
}

/// One clause of a constraint body.
#[derive(Debug, Clone)]
pub struct Subcommand {
    pub using: Option<Expression>,
    pub err_message: Option<String>,
    pub annotation: Option<Annotation>,
}

/// Collects the fields of a `Subcommand` before validation.
#[derive(Debug, Clone)]
pub struct SubcommandBuilder {
    pub using: Option<Expression>,
    pub err_message: Option<String>,
    pub annotation: Option<Annotation>,
}

impl Default for SubcommandBuilder {
    /// A builder with nothing set.
    fn default() -> (r: SubcommandBuilder)
        ensures
            r.using is None,
            r.err_message is None,
            r.annotation is None,
    {
        SubcommandBuilder {
            using: None,
            err_message: None,
            annotation: None,
        }
    }
}

/// Whether the collected fields form a valid `Subcommand`.
pub open spec fn subcommand_build_ok(b: SubcommandBuilder) -> bool {
    true
}

/// The error reported when the collected fields are invalid.
pub open spec fn subcommand_build_err(b: SubcommandBuilder) -> ValidationError {
    ValidationError::UninitializedField
}

impl SubcommandBuilder {
    pub fn using(self, value: Expression) -> (r: SubcommandBuilder)
        ensures
            r.using == Some(value),
            r.err_message == self.err_message,
            r.annotation == self.annotation,
    {
        SubcommandBuilder { using: Some(value), ..self }
    }

    pub fn err_message(self, value: &str) -> (r: SubcommandBuilder)
        ensures
            r.err_message is Some && r.err_message->Some_0@ == value@,
            r.using == self.using,
            r.annotation == self.annotation,
    {
        SubcommandBuilder { err_message: Some(String::from_str(value)), ..self }
    }

    pub fn annotation(self, value: Annotation) -> (r: SubcommandBuilder)
        ensures
            r.annotation == Some(value),
            r.using == self.using,
            r.err_message == self.err_message,
    {
        SubcommandBuilder { annotation: Some(value), ..self }
    }

    /// Validates the collected fields and constructs the value.
    pub fn build(self) -> (r: Result<Subcommand, ValidationError>)
        ensures
            match r {
                Ok(x) => subcommand_build_ok(self) && x.using == self.using && x.err_message == self.err_message && x.annotation == self.annotation,
                Err(e) => !subcommand_build_ok(self) && e == subcommand_build_err(self),
            },
    {
        Ok(Subcommand {
            using: self.using,
            err_message: self.err_message,
            annotation: self.annotation,
        })
    }
}

/// A constraint declaration; `extends` names a base constraint.
#[derive(Debug, Clone)]
pub struct Constraint {
    pub ident: String,
    pub extends: Option<String>,
    pub delegated: bool,
    pub on_abstract_types: bool,
    pub on_concrete_scalar_types: bool,
    pub on_concrete_object_types: bool,
    pub args: Option<Vec<ArgSpec>>,
    pub subcommands: Option<Vec<Subcommand>>,
}

/// Collects the fields of a `Constraint` before validation.
#[derive(Debug, Clone)]
pub struct ConstraintBuilder {
    pub ident: Option<String>,
    pub extends: Option<String>,
    pub delegated: Option<bool>,
    pub on_abstract_types: Option<bool>,
    pub on_concrete_scalar_types: Option<bool>,
    pub on_concrete_object_types: Option<bool>,
    pub args: Option<Vec<ArgSpec>>,
    pub subcommands: Option<Vec<Subcommand>>,
}

impl Default for ConstraintBuilder {
    /// A builder with nothing set.
    fn default() -> (r: ConstraintBuilder)
        ensures
            r.ident is None,
            r.extends is None,
            r.delegated is None,
            r.on_abstract_types is None,
            r.on_concrete_scalar_types is None,
            r.on_concrete_object_types is None,
            r.args is None,
            r.subcommands is None,
    {
        ConstraintBuilder {
            ident: None,
            extends: None,
            delegated: None,
            on_abstract_types: None,
            on_concrete_scalar_types: None,
            on_concrete_object_types: None,
            args: None,
            subcommands: None,
        }
    }
}

/// Whether the collected fields form a valid `Constraint`.
pub open spec fn constraint_build_ok(b: ConstraintBuilder) -> bool {
    b.ident is Some
        && b.ident->Some_0@.len() != 0
}

/// The error reported when the collected fields are invalid.
pub open spec fn constraint_build_err(b: ConstraintBuilder) -> ValidationError {
    if b.ident is None {
        ValidationError::UninitializedField
    } else {
        ValidationError::EmptyIdentifier
    }
}

impl ConstraintBuilder {
    pub fn ident(self, value: &str) -> (r: ConstraintBuilder)
        ensures
            r.ident is Some && r.ident->Some_0@ == value@,
            r.extends == self.extends,
            r.delegated == self.delegated,
            r.on_abstract_types == self.on_abstract_types,
            r.on_concrete_scalar_types == self.on_concrete_scalar_types,
            r.on_concrete_object_types == self.on_concrete_object_types,
            r.args == self.args,
            r.subcommands == self.subcommands,
    {
        ConstraintBuilder { ident: Some(String::from_str(value)), ..self }
    }

    pub fn extends(self, value: &str) -> (r: ConstraintBuilder)
        ensures
            r.extends is Some && r.extends->Some_0@ == value@,
            r.ident == self.ident,
            r.delegated == self.delegated,
            r.on_abstract_types == self.on_abstract_types,
            r.on_concrete_scalar_types == self.on_concrete_scalar_types,
            r.on_concrete_object_types == self.on_concrete_object_types,
            r.args == self.args,
            r.subcommands == self.subcommands,
    {
        ConstraintBuilder { extends: Some(String::from_str(value)), ..self }
    }

    pub fn delegated(self, value: bool) -> (r: ConstraintBuilder)
        ensures
            r.delegated == Some(value),
            r.ident == self.ident,
            r.extends == self.extends,
            r.on_abstract_types == self.on_abstract_types,
            r.on_concrete_scalar_types == self.on_concrete_scalar_types,
            r.on_concrete_object_types == self.on_concrete_object_types,
            r.args == self.args,
            r.subcommands == self.subcommands,
    {
        ConstraintBuilder { delegated: Some(value), ..self }
    }

    pub fn on_abstract_types(self, value: bool) -> (r: ConstraintBuilder)
        ensures
            r.on_abstract_types == Some(value),
            r.ident == self.ident,
            r.extends == self.extends,
            r.delegated == self.delegated,
            r.on_concrete_scalar_types == self.on_concrete_scalar_types,
            r.on_concrete_object_types == self.on_concrete_object_types,
            r.args == self.args,
            r.subcommands == self.subcommands,
    {
        ConstraintBuilder { on_abstract_types: Some(value), ..self }
    }

    pub fn on_concrete_scalar_types(self, value: bool) -> (r: ConstraintBuilder)
        ensures
            r.on_concrete_scalar_types == Some(value),
            r.ident == self.ident,
            r.extends == self.extends,
            r.delegated == self.delegated,
            r.on_abstract_types == self.on_abstract_types,
            r.on_concrete_object_types == self.on_concrete_object_types,
            r.args == self.args,
            r.subcommands == self.subcommands,
    {
        ConstraintBuilder { on_concrete_scalar_types: Some(value), ..self }
    }

    pub fn on_concrete_object_types(self, value: bool) -> (r: ConstraintBuilder)
        ensures
            r.on_concrete_object_types == Some(value),
            r.ident == self.ident,
            r.extends == self.extends,
            r.delegated == self.delegated,
            r.on_abstract_types == self.on_abstract_types,
            r.on_concrete_scalar_types == self.on_concrete_scalar_types,
            r.args == self.args,
            r.subcommands == self.subcommands,
    {
        ConstraintBuilder { on_concrete_object_types: Some(value), ..self }
    }

    pub fn args(self, value: Vec<ArgSpec>) -> (r: ConstraintBuilder)
        ensures
            r.args == Some(value),
            r.ident == self.ident,
            r.extends == self.extends,
            r.delegated == self.delegated,
            r.on_abstract_types == self.on_abstract_types,
            r.on_concrete_scalar_types == self.on_concrete_scalar_types,
            r.on_concrete_object_types == self.on_concrete_object_types,
            r.subcommands == self.subcommands,
    {
        ConstraintBuilder { args: Some(value), ..self }
    }

    pub fn subcommands(self, value: Vec<Subcommand>) -> (r: ConstraintBuilder)
        ensures
            r.subcommands == Some(value),
            r.ident == self.ident,
            r.extends == self.extends,
            r.delegated == self.delegated,
            r.on_abstract_types == self.on_abstract_types,
            r.on_concrete_scalar_types == self.on_concrete_scalar_types,
            r.on_concrete_object_types == self.on_concrete_object_types,
            r.args == self.args,
    {
        ConstraintBuilder { subcommands: Some(value), ..self }
    }

    /// Validates the collected fields and constructs the value.
    pub fn build(self) -> (r: Result<Constraint, ValidationError>)
        ensures
            match r {
                Ok(x) => constraint_build_ok(self) && x.ident@ == self.ident->Some_0@ && x.extends == self.extends && x.delegated == obool(self.delegated) && x.on_abstract_types == obool(self.on_abstract_types) && x.on_concrete_scalar_types == obool(self.on_concrete_scalar_types) && x.on_concrete_object_types == obool(self.on_concrete_object_types) && x.args == self.args && x.subcommands == self.subcommands,
                Err(e) => !constraint_build_ok(self) && e == constraint_build_err(self),
            },
    {
        let ident_v = match self.ident {
            Some(v) => v,
            None => {
                return Err(ValidationError::UninitializedField);
            },
        };
        if ident_v.as_str().is_empty() {
            return Err(ValidationError::EmptyIdentifier);
        }
        Ok(Constraint {
            ident: ident_v,
            extends: self.extends,
            delegated: match self.delegated {
                Some(b) => b,
                None => false,
            },
            on_abstract_types: match self.on_abstract_types {
                Some(b) => b,
                None => false,
            },
            on_concrete_scalar_types: match self.on_concrete_scalar_types {
                Some(b) => b,
                None => false,
            },
            on_concrete_object_types: match self.on_concrete_object_types {
                Some(b) => b,
                None => false,
            },
            args: self.args,
            subcommands: self.subcommands,
        })
    }
}

/// A property declaration; bases and the owning module are named, never referenced.
#[derive(Debug, Clone)]
pub struct Property {
    pub ident: String,
    pub overloaded: bool,
    pub abs: bool,
    pub readonly: bool,
    pub required: bool,
    pub multi: bool,
    pub kind: PropertyKind,
    pub default: Option<Expression>,
    pub constraints: Option<Vec<Constraint>>,
    pub extends: Option<Vec<String>>,
    pub module: Option<String>,
}

/// Collects the fields of a `Property` before validation.
#[derive(Debug, Clone)]
pub struct PropertyBuilder {
    pub ident: Option<String>,
    pub overloaded: Option<bool>,
    pub abs: Option<bool>,
    pub readonly: Option<bool>,
    pub required: Option<bool>,
    pub multi: Option<bool>,
    pub kind: Option<PropertyKind>,
    pub default: Option<Expression>,
    pub constraints: Option<Vec<Constraint>>,
    pub extends: Option<Vec<String>>,
    pub module: Option<String>,
}

impl Default for PropertyBuilder {
    /// A builder with nothing set.
    fn default() -> (r: PropertyBuilder)
        ensures
            r.ident is None,
            r.overloaded is None,
            r.abs is None,
            r.readonly is None,
            r.required is None,
            r.multi is None,
            r.kind is None,
            r.default is None,
            r.constraints is None,
            r.extends is None,
            r.module is None,
    {
        PropertyBuilder {
            ident: None,
            overloaded: None,
            abs: None,
            readonly: None,
            required: None,
            multi: None,
            kind: None,
            default: None,
            constraints: None,
            extends: None,
            module: None,
        }
    }
}

/// Whether the collected fields form a valid `Property`.
pub open spec fn property_build_ok(b: PropertyBuilder) -> bool {
    b.ident is Some
        && b.kind is Some
        && b.ident->Some_0@.len() != 0
        && ((b.kind->Some_0 == PropertyKind::Abstract) <==> obool(b.abs))
}

/// The error reported when the collected fields are invalid.
pub open spec fn property_build_err(b: PropertyBuilder) -> ValidationError {
    if b.ident is None || b.kind is None {
        ValidationError::UninitializedField
    } else if b.ident->Some_0@.len() == 0 {
        ValidationError::EmptyIdentifier
    } else {
        ValidationError::ConflictingFlags
    }
}

impl PropertyBuilder {
    pub fn ident(self, value: &str) -> (r: PropertyBuilder)
        ensures
            r.ident is Some && r.ident->Some_0@ == value@,
            r.overloaded == self.overloaded,
            r.abs == self.abs,
            r.readonly == self.readonly,
            r.required == self.required,
            r.multi == self.multi,
            r.kind == self.kind,
            r.default == self.default,
            r.constraints == self.constraints,
            r.extends == self.extends,
            r.module == self.module,
    {
        PropertyBuilder { ident: Some(String::from_str(value)), ..self }
    }

    pub fn overloaded(self, value: bool) -> (r: PropertyBuilder)
        ensures
            r.overloaded == Some(value),
            r.ident == self.ident,
            r.abs == self.abs,
            r.readonly == self.readonly,
            r.required == self.required,
            r.multi == self.multi,
            r.kind == self.kind,
            r.default == self.default,
            r.constraints == self.constraints,
            r.extends == self.extends,
            r.module == self.module,
    {
        PropertyBuilder { overloaded: Some(value), ..self }
    }

    pub fn abs(self, value: bool) -> (r: PropertyBuilder)
        ensures
            r.abs == Some(value),
            r.ident == self.ident,
            r.overloaded == self.overloaded,
            r.readonly == self.readonly,
            r.required == self.required,
            r.multi == self.multi,
            r.kind == self.kind,
            r.default == self.default,
            r.constraints == self.constraints,
            r.extends == self.extends,
            r.module == self.module,
    {
        PropertyBuilder { abs: Some(value), ..self }
    }

    pub fn readonly(self, value: bool) -> (r: PropertyBuilder)
        ensures
            r.readonly == Some(value),
            r.ident == self.ident,
            r.overloaded == self.overloaded,
            r.abs == self.abs,
            r.required == self.required,
            r.multi == self.multi,
            r.kind == self.kind,
            r.default == self.default,
            r.constraints == self.constraints,
            r.extends == self.extends,
            r.module == self.module,
    {
        PropertyBuilder { readonly: Some(value), ..self }
    }

    pub fn required(self, value: bool) -> (r: PropertyBuilder)
        ensures
            r.required == Some(value),
            r.ident == self.ident,
            r.overloaded == self.overloaded,
            r.abs == self.abs,
            r.readonly == self.readonly,
            r.multi == self.multi,
            r.kind == self.kind,
            r.default == self.default,
            r.constraints == self.constraints,
            r.extends == self.extends,
            r.module == self.module,
    {
        PropertyBuilder { required: Some(value), ..self }
    }

    pub fn multi(self, value: bool) -> (r: PropertyBuilder)
        ensures
            r.multi == Some(value),
            r.ident == self.ident,
            r.overloaded == self.overloaded,
            r.abs == self.abs,
            r.readonly == self.readonly,
            r.required == self.required,
            r.kind == self.kind,
            r.default == self.default,
            r.constraints == self.constraints,
            r.extends == self.extends,
            r.module == self.module,
    {
        PropertyBuilder { multi: Some(value), ..self }
    }

    pub fn kind(self, value: PropertyKind) -> (r: PropertyBuilder)
        ensures
            r.kind == Some(value),
            r.ident == self.ident,
            r.overloaded == self.overloaded,
            r.abs == self.abs,
            r.readonly == self.readonly,
            r.required == self.required,
            r.multi == self.multi,
            r.default == self.default,
            r.constraints == self.constraints,
            r.extends == self.extends,
            r.module == self.module,
    {
        PropertyBuilder { kind: Some(value), ..self }
    }

    pub fn default_value(self, value: Expression) -> (r: PropertyBuilder)
        ensures
            r.default == Some(value),
            r.ident == self.ident,
            r.overloaded == self.overloaded,
            r.abs == self.abs,
            r.readonly == self.readonly,
            r.required == self.required,
            r.multi == self.multi,
            r.kind == self.kind,
            r.constraints == self.constraints,
            r.extends == self.extends,
            r.module == self.module,
    {
        PropertyBuilder { default: Some(value), ..self }
    }

    pub fn constraints(self, value: Vec<Constraint>) -> (r: PropertyBuilder)
        ensures
            r.constraints == Some(value),
            r.ident == self.ident,
            r.overloaded == self.overloaded,
            r.abs == self.abs,
            r.readonly == self.readonly,
            r.required == self.required,
            r.multi == self.multi,
            r.kind == self.kind,
            r.default == self.default,
            r.extends == self.extends,
            r.module == self.module,
    {
        PropertyBuilder { constraints: Some(value), ..self }
    }

    pub fn extends(self, value: Vec<String>) -> (r: PropertyBuilder)
        ensures
            r.extends == Some(value),
            r.ident == self.ident,
            r.overloaded == self.overloaded,
            r.abs == self.abs,
            r.readonly == self.readonly,
            r.required == self.required,
            r.multi == self.multi,
            r.kind == self.kind,
            r.default == self.default,
            r.constraints == self.constraints,
            r.module == self.module,
    {
        PropertyBuilder { extends: Some(value), ..self }
    }

    pub fn module(self, value: &str) -> (r: PropertyBuilder)
        ensures
            r.module is Some && r.module->Some_0@ == value@,
            r.ident == self.ident,
            r.overloaded == self.overloaded,
            r.abs == self.abs,
            r.readonly == self.readonly,
            r.required == self.required,
            r.multi == self.multi,
            r.kind == self.kind,
            r.default == self.default,
            r.constraints == self.constraints,
            r.extends == self.extends,
    {
        PropertyBuilder { module: Some(String::from_str(value)), ..self }
    }

    /// Validates the collected fields and constructs the value.
    pub fn build(self) -> (r: Result<Property, ValidationError>)
        ensures
            match r {
                Ok(x) => property_build_ok(self) && x.ident@ == self.ident->Some_0@ && x.overloaded == obool(self.overloaded) && x.abs == obool(self.abs) && x.readonly == obool(self.readonly) && x.required == obool(self.required) && x.multi == obool(self.multi) && x.kind == self.kind->Some_0 && x.default == self.default && x.constraints == self.constraints && x.extends == self.extends && x.module == self.module,
                Err(e) => !property_build_ok(self) && e == property_build_err(self),
            },
    {
        let ident_v = match self.ident {
            Some(v) => v,
            None => {
                return Err(ValidationError::UninitializedField);
            },
        };
        let kind_v = match self.kind {
            Some(v) => v,
            None => {
                return Err(ValidationError::UninitializedField);
            },
        };
        if ident_v.as_str().is_empty() {
            return Err(ValidationError::EmptyIdentifier);
        }
        let abs_flag = match self.abs {
            Some(b) => b,
            None => false,
        };
        let is_abstract_kind = match kind_v {
            PropertyKind::Abstract => true,
            _ => false,
        };
        if is_abstract_kind != abs_flag {
            return Err(ValidationError::ConflictingFlags);
        }
        Ok(Property {
            ident: ident_v,
            overloaded: match self.overloaded {
                Some(b) => b,
                None => false,
            },
            abs: abs_flag,
            readonly: match self.readonly {
                Some(b) => b,
                None => false,
            },
            required: match self.required {
                Some(b) => b,
                None => false,
            },
            multi: match self.multi {
                Some(b) => b,
                None => false,
            },
            kind: kind_v,
            default: self.default,
            constraints: self.constraints,
            extends: self.extends,
            module: self.module,
        })
    }
}

/// A link declaration; bases and the owning module are named, never referenced.
#[derive(Debug, Clone)]
pub struct Link {
    pub ident: String,
    pub overloaded: bool,
    pub abs: bool,
    pub readonly: bool,
    pub required: bool,
    pub multi: bool,
    pub kind: LinkKind,
    pub default: Option<Expression>,
    pub constraints: Option<Vec<Constraint>>,
    pub extends: Option<Vec<String>>,
    pub module: Option<String>,
}

/// Collects the fields of a `Link` before validation.
#[derive(Debug, Clone)]
pub struct LinkBuilder {
    pub ident: Option<String>,
    pub overloaded: Option<bool>,
    pub abs: Option<bool>,
    pub readonly: Option<bool>,
    pub required: Option<bool>,
    pub multi: Option<bool>,
    pub kind: Option<LinkKind>,
    pub default: Option<Expression>,
    pub constraints: Option<Vec<Constraint>>,
    pub extends: Option<Vec<String>>,
    pub module: Option<String>,
}

impl Default for LinkBuilder {
    /// A builder with nothing set.
    fn default() -> (r: LinkBuilder)
        ensures
            r.ident is None,
            r.overloaded is None,
            r.abs is None,
            r.readonly is None,
            r.required is None,
            r.multi is None,
            r.kind is None,
            r.default is None,
            r.constraints is None,
            r.extends is None,
            r.module is None,
    {
        LinkBuilder {
            ident: None,
            overloaded: None,
            abs: None,
            readonly: None,
            required: None,
            multi: None,
            kind: None,
            default: None,
            constraints: None,
            extends: None,
            module: None,
        }
    }
}

/// Whether the collected fields form a valid `Link`.
pub open spec fn link_build_ok(b: LinkBuilder) -> bool {
    b.ident is Some
        && b.kind is Some
        && b.ident->Some_0@.len() != 0
        && ((b.kind->Some_0 == LinkKind::Abstract) <==> obool(b.abs))
}

/// The error reported when the collected fields are invalid.
pub open spec fn link_build_err(b: LinkBuilder) -> ValidationError {
    if b.ident is None || b.kind is None {
        ValidationError::UninitializedField
    } else if b.ident->Some_0@.len() == 0 {
        ValidationError::EmptyIdentifier
    } else {
        ValidationError::ConflictingFlags
    }
}

impl LinkBuilder {
    pub fn ident(self, value: &str) -> (r: LinkBuilder)
        ensures
            r.ident is Some && r.ident->Some_0@ == value@,
            r.overloaded == self.overloaded,
            r.abs == self.abs,
            r.readonly == self.readonly,
            r.required == self.required,
            r.multi == self.multi,
            r.kind == self.kind,
            r.default == self.default,
            r.constraints == self.constraints,
            r.extends == self.extends,
            r.module == self.module,
    {
        LinkBuilder { ident: Some(String::from_str(value)), ..self }
    }

    pub fn overloaded(self, value: bool) -> (r: LinkBuilder)
        ensures
            r.overloaded == Some(value),
            r.ident == self.ident,
            r.abs == self.abs,
            r.readonly == self.readonly,
            r.required == self.required,
            r.multi == self.multi,
            r.kind == self.kind,
            r.default == self.default,
            r.constraints == self.constraints,
            r.extends == self.extends,
            r.module == self.module,
    {
        LinkBuilder { overloaded: Some(value), ..self }
    }

    pub fn abs(self, value: bool) -> (r: LinkBuilder)
        ensures
            r.abs == Some(value),
            r.ident == self.ident,
            r.overloaded == self.overloaded,
            r.readonly == self.readonly,
            r.required == self.required,
            r.multi == self.multi,
            r.kind == self.kind,
            r.default == self.default,
            r.constraints == self.constraints,
            r.extends == self.extends,
            r.module == self.module,
    {
        LinkBuilder { abs: Some(value), ..self }
    }

    pub fn readonly(self, value: bool) -> (r: LinkBuilder)
        ensures
            r.readonly == Some(value),
            r.ident == self.ident,
            r.overloaded == self.overloaded,
            r.abs == self.abs,
            r.required == self.required,
            r.multi == self.multi,
            r.kind == self.kind,
            r.default == self.default,
            r.constraints == self.constraints,
            r.extends == self.extends,
            r.module == self.module,
    {
        LinkBuilder { readonly: Some(value), ..self }
    }

    pub fn required(self, value: bool) -> (r: LinkBuilder)
        ensures
            r.required == Some(value),
            r.ident == self.ident,
            r.overloaded == self.overloaded,
            r.abs == self.abs,
            r.readonly == self.readonly,
            r.multi == self.multi,
            r.kind == self.kind,
            r.default == self.default,
            r.constraints == self.constraints,
            r.extends == self.extends,
            r.module == self.module,
    {
        LinkBuilder { required: Some(value), ..self }
    }

    pub fn multi(self, value: bool) -> (r: LinkBuilder)
        ensures
            r.multi == Some(value),
            r.ident == self.ident,
            r.overloaded == self.overloaded,
            r.abs == self.abs,
            r.readonly == self.readonly,
            r.required == self.required,
            r.kind == self.kind,
            r.default == self.default,
            r.constraints == self.constraints,
            r.extends == self.extends,
            r.module == self.module,
    {
        LinkBuilder { multi: Some(value), ..self }
    }

    pub fn kind(self, value: LinkKind) -> (r: LinkBuilder)
        ensures
            r.kind == Some(value),
            r.ident == self.ident,
            r.overloaded == self.overloaded,
            r.abs == self.abs,
            r.readonly == self.readonly,
            r.required == self.required,
            r.multi == self.multi,
            r.default == self.default,
            r.constraints == self.constraints,
            r.extends == self.extends,
            r.module == self.module,
    {
        LinkBuilder { kind: Some(value), ..self }
    }

    pub fn default_value(self, value: Expression) -> (r: LinkBuilder)
        ensures
            r.default == Some(value),
            r.ident == self.ident,
            r.overloaded == self.overloaded,
            r.abs == self.abs,
            r.readonly == self.readonly,
            r.required == self.required,
            r.multi == self.multi,
            r.kind == self.kind,
            r.constraints == self.constraints,
            r.extends == self.extends,
            r.module == self.module,
    {
        LinkBuilder { default: Some(value), ..self }
    }

    pub fn constraints(self, value: Vec<Constraint>) -> (r: LinkBuilder)
        ensures
            r.constraints == Some(value),
            r.ident == self.ident,
            r.overloaded == self.overloaded,
            r.abs == self.abs,
            r.readonly == self.readonly,
            r.required == self.required,
            r.multi == self.multi,
            r.kind == self.kind,
            r.default == self.default,
            r.extends == self.extends,
            r.module == self.module,
    {
        LinkBuilder { constraints: Some(value), ..self }
    }

    pub fn extends(self, value: Vec<String>) -> (r: LinkBuilder)
        ensures
            r.extends == Some(value),
            r.ident == self.ident,
            r.overloaded == self.overloaded,
            r.abs == self.abs,
            r.readonly == self.readonly,
            r.required == self.required,
            r.multi == self.multi,
            r.kind == self.kind,
            r.default == self.default,
            r.constraints == self.constraints,
            r.module == self.module,
    {
        LinkBuilder { extends: Some(value), ..self }
    }

    pub fn module(self, value: &str) -> (r: LinkBuilder)
        ensures
            r.module is Some && r.module->Some_0@ == value@,
            r.ident == self.ident,
            r.overloaded == self.overloaded,
            r.abs == self.abs,
            r.readonly == self.readonly,
            r.required == self.required,
            r.multi == self.multi,
            r.kind == self.kind,
            r.default == self.default,
            r.constraints == self.constraints,
            r.extends == self.extends,
    {
        LinkBuilder { module: Some(String::from_str(value)), ..self }
    }

    /// Validates the collected fields and constructs the value.
    pub fn build(self) -> (r: Result<Link, ValidationError>)
        ensures
            match r {
                Ok(x) => link_build_ok(self) && x.ident@ == self.ident->Some_0@ && x.overloaded == obool(self.overloaded) && x.abs == obool(self.abs) && x.readonly == obool(self.readonly) && x.required == obool(self.required) && x.multi == obool(self.multi) && x.kind == self.kind->Some_0 && x.default == self.default && x.constraints == self.constraints && x.extends == self.extends && x.module == self.module,
                Err(e) => !link_build_ok(self) && e == link_build_err(self),
            },
    {
        let ident_v = match self.ident {
            Some(v) => v,
            None => {
                return Err(ValidationError::UninitializedField);
            },
        };
        let kind_v = match self.kind {
            Some(v) => v,
            None => {
                return Err(ValidationError::UninitializedField);
            },
        };
        if ident_v.as_str().is_empty() {
            return Err(ValidationError::EmptyIdentifier);
        }
        let abs_flag = match self.abs {
            Some(b) => b,
            None => false,
        };
        let is_abstract_kind = match kind_v {
            LinkKind::Abstract => true,
            _ => false,
        };
        if is_abstract_kind != abs_flag {
            return Err(ValidationError::ConflictingFlags);
        }
        Ok(Link {
            ident: ident_v,
            overloaded: match self.overloaded {
                Some(b) => b,
                None => false,
            },
            abs: abs_flag,
            readonly: match self.readonly {
                Some(b) => b,
                None => false,
            },
            required: match self.required {
                Some(b) => b,
                None => false,
            },
            multi: match self.multi {
                Some(b) => b,
                None => false,
            },
            kind: kind_v,
            default: self.default,
            constraints: self.constraints,
            extends: self.extends,
            module: self.module,
        })
    }
}

/// An object or scalar type declaration; bases are named, never referenced.
#[derive(Debug, Clone)]
pub struct Type {
    pub ident: String,
    pub abs: bool,
    pub scalar: bool,
    pub extends: Option<Vec<String>>,
    pub properties: Option<Vec<Property>>,
    pub annotations: Option<Vec<Annotation>>,
    pub links: Option<Vec<String>>,
    pub constraints: Option<Vec<Constraint>>,
    pub indices: Option<Index>,
}

/// Collects the fields of a `Type` before validation.
#[derive(Debug, Clone)]
pub struct TypeBuilder {
    pub ident: Option<String>,
    pub abs: Option<bool>,
    pub scalar: Option<bool>,
    pub extends: Option<Vec<String>>,
    pub properties: Option<Vec<Property>>,
    pub annotations: Option<Vec<Annotation>>,
    pub links: Option<Vec<String>>,
    pub constraints: Option<Vec<Constraint>>,
    pub indices: Option<Index>,
}

impl Default for TypeBuilder {
    /// A builder with nothing set.
    fn default() -> (r: TypeBuilder)
        ensures
            r.ident is None,
            r.abs is None,
            r.scalar is None,
            r.extends is None,
            r.properties is None,
            r.annotations is None,
            r.links is None,
            r.constraints is None,
            r.indices is None,
    {
        TypeBuilder {
            ident: None,
            abs: None,
            scalar: None,
            extends: None,
            properties: None,
            annotations: None,
            links: None,
            constraints: None,
            indices: None,
        }
    }
}

/// Whether the collected fields form a valid `Type`.
pub open spec fn type_build_ok(b: TypeBuilder) -> bool {
    b.ident is Some
        && b.ident->Some_0@.len() != 0
}

/// The error reported when the collected fields are invalid.
pub open spec fn type_build_err(b: TypeBuilder) -> ValidationError {
    if b.ident is None {
        ValidationError::UninitializedField
    } else {
        ValidationError::EmptyIdentifier
    }
}

impl TypeBuilder {
    pub fn ident(self, value: &str) -> (r: TypeBuilder)
        ensures
            r.ident is Some && r.ident->Some_0@ == value@,
            r.abs == self.abs,
            r.scalar == self.scalar,
            r.extends == self.extends,
            r.properties == self.properties,
            r.annotations == self.annotations,
            r.links == self.links,
            r.constraints == self.constraints,
            r.indices == self.indices,
    {
        TypeBuilder { ident: Some(String::from_str(value)), ..self }
    }

    pub fn abs(self, value: bool) -> (r: TypeBuilder)
        ensures
            r.abs == Some(value),
            r.ident == self.ident,
            r.scalar == self.scalar,
            r.extends == self.extends,
            r.properties == self.properties,
            r.annotations == self.annotations,
            r.links == self.links,
            r.constraints == self.constraints,
            r.indices == self.indices,
    {
        TypeBuilder { abs: Some(value), ..self }
    }

    pub fn scalar(self, value: bool) -> (r: TypeBuilder)
        ensures
            r.scalar == Some(value),
            r.ident == self.ident,
            r.abs == self.abs,
            r.extends == self.extends,
            r.properties == self.properties,
            r.annotations == self.annotations,
            r.links == self.links,
            r.constraints == self.constraints,
            r.indices == self.indices,
    {
        TypeBuilder { scalar: Some(value), ..self }
    }

    pub fn extends(self, value: Vec<String>) -> (r: TypeBuilder)
        ensures
            r.extends == Some(value),
            r.ident == self.ident,
            r.abs == self.abs,
            r.scalar == self.scalar,
            r.properties == self.properties,
            r.annotations == self.annotations,
            r.links == self.links,
            r.constraints == self.constraints,
            r.indices == self.indices,
    {
        TypeBuilder { extends: Some(value), ..self }
    }

    pub fn properties(self, value: Vec<Property>) -> (r: TypeBuilder)
        ensures
            r.properties == Some(value),
            r.ident == self.ident,
            r.abs == self.abs,
            r.scalar == self.scalar,
            r.extends == self.extends,
            r.annotations == self.annotations,
            r.links == self.links,
            r.constraints == self.constraints,
            r.indices == self.indices,
    {
        TypeBuilder { properties: Some(value), ..self }
    }

    pub fn annotations(self, value: Vec<Annotation>) -> (r: TypeBuilder)
        ensures
            r.annotations == Some(value),
            r.ident == self.ident,
            r.abs == self.abs,
            r.scalar == self.scalar,
            r.extends == self.extends,
            r.properties == self.properties,
            r.links == self.links,
            r.constraints == self.constraints,
            r.indices == self.indices,
    {
        TypeBuilder { annotations: Some(value), ..self }
    }

    pub fn links(self, value: Vec<String>) -> (r: TypeBuilder)
        ensures
            r.links == Some(value),
            r.ident == self.ident,
            r.abs == self.abs,
            r.scalar == self.scalar,
            r.extends == self.extends,
            r.properties == self.properties,
            r.annotations == self.annotations,
            r.constraints == self.constraints,
            r.indices == self.indices,
    {
        TypeBuilder { links: Some(value), ..self }
    }

    pub fn constraints(self, value: Vec<Constraint>) -> (r: TypeBuilder)
        ensures
            r.constraints == Some(value),
            r.ident == self.ident,
            r.abs == self.abs,
            r.scalar == self.scalar,
            r.extends == self.extends,
            r.properties == self.properties,
            r.annotations == self.annotations,
            r.links == self.links,
            r.indices == self.indices,
    {
        TypeBuilder { constraints: Some(value), ..self }
    }

    pub fn indices(self, value: Index) -> (r: TypeBuilder)
        ensures
            r.indices == Some(value),
            r.ident == self.ident,
            r.abs == self.abs,
            r.scalar == self.scalar,
            r.extends == self.extends,
            r.properties == self.properties,
            r.annotations == self.annotations,
            r.links == self.links,
            r.constraints == self.constraints,
    {
        TypeBuilder { indices: Some(value), ..self }
    }

    /// Checks that the collected identifier is not empty.
    fn validate(&self) -> (r: Result<(), ValidationError>)
        requires
            self.ident is Some,
        ensures
            r is Ok <==> self.ident->Some_0@.len() != 0,
            r is Err ==> r->Err_0 == ValidationError::EmptyIdentifier,
    {
        match &self.ident {
            Some(s) => {
                if s.as_str().is_empty() {
                    Err(ValidationError::EmptyIdentifier)
                } else {
                    Ok(())
                }
            },
            None => Err(ValidationError::UninitializedField),
        }
    }

    /// Validates the collected fields and constructs the value.
    pub fn build(self) -> (r: Result<Type, ValidationError>)
        ensures
            match r {
                Ok(x) => type_build_ok(self) && x.ident@ == self.ident->Some_0@ && x.abs == obool(self.abs) && x.scalar == obool(self.scalar) && x.extends == self.extends && x.properties == self.properties && x.annotations == self.annotations && x.links == self.links && x.constraints == self.constraints && x.indices == self.indices,
                Err(e) => !type_build_ok(self) && e == type_build_err(self),
            },
    {
        if self.ident.is_none() {
            return Err(ValidationError::UninitializedField);
        }
        match self.validate() {
            Ok(()) => {},
            Err(e) => {
                return Err(e);
            },
        }
        let ident_v = match self.ident {
            Some(v) => v,
            None => {
                return Err(ValidationError::UninitializedField);
            },
        };
        Ok(Type {
            ident: ident_v,
            abs: match self.abs {
                Some(b) => b,
                None => false,
            },
            scalar: match self.scalar {
                Some(b) => b,
                None => false,
            },
            extends: self.extends,
            properties: self.properties,
            annotations: self.annotations,
            links: self.links,
            constraints: self.constraints,
            indices: self.indices,
        })
    }
}

/// A supertype reference is itself a type declaration.
pub type SuperType = Type;

/// A constraint argument is annotation-shaped.
pub type ArgSpec = Annotation;

/// Clones a list of names, if one was set.
fn clone_names(src: &Option<Vec<String>>) -> (r: Vec<String>)
    ensures
        r.deep_view() == (match src {
            Some(v) => v.deep_view(),
            None => Seq::<Seq<char>>::empty(),
        }),
{
    match src {
        Some(v) => {
            let mut out: Vec<String> = Vec::new();
            let mut k: usize = 0;
            proof {
                assert(out.deep_view() =~= v.deep_view().take(0));
            }
            while k < v.len()
                invariant
                    k <= v@.len(),
                    out.deep_view() == v.deep_view().take(k as int),
                decreases v@.len() - k,
            {
                let ghost before = out.deep_view();
                out.push(v[k].clone());
                proof {
                    assert(out.deep_view() =~= before.push(v@[k as int]@));
                    assert(v.deep_view().take(k + 1) =~= before.push(v@[k as int]@));
                }
                k = k + 1;
            }
            proof {
                assert(v.deep_view().take(v@.len() as int) =~= v.deep_view());
            }
            out
        },
        None => {
            let out: Vec<String> = Vec::new();
            proof {
                assert(out.deep_view() =~= Seq::<Seq<char>>::empty());
            }
            out
        },
    }
}

impl Type {
    /// The flat store record for this type: its name, its kind from
    /// the scalar flag, and its declared base names.
    pub fn to_declaration(&self) -> (d: Declaration)
        ensures
            d@.ident == self.ident@,
            d@.kind == (if self.scalar {
                IRKind(Some(ObjKindIdent::Scalar))
            } else {
                IRKind(Some(ObjKindIdent::Object))
            }),
            d@.extends == (match self.extends {
                Some(v) => v.deep_view(),
                None => Seq::<Seq<char>>::empty(),
            }),
            d@.is_abstract == self.abs,
            d@.is_scalar == self.scalar,
            d@.module is None,
            d@.union_operands == Seq::<Seq<char>>::empty(),
            d@.intersection_operands == Seq::<Seq<char>>::empty(),
    {
        let kind = if self.scalar {
            IRKind::scalar()
        } else {
            IRKind::object()
        };
        let mut d = Declaration::new(self.ident.clone(), kind);
        d.extends = clone_names(&self.extends);
        d.is_abstract = self.abs;
        d.is_scalar = self.scalar;
        d
    }
}

impl Property {
    /// The flat store record for this property: its name, the property
    /// kind tag, its declared base names and its module name.
    pub fn to_declaration(&self) -> (d: Declaration)
        ensures
            d@.ident == self.ident@,
            d@.kind == IRKind(Some(ObjKindIdent::Property)),
            d@.extends == (match self.extends {
                Some(v) => v.deep_view(),
                None => Seq::<Seq<char>>::empty(),
            }),
            d@.is_abstract == self.abs,
            !d@.is_scalar,
            d@.module == self.module.deep_view(),
    {
        let mut d = Declaration::new(self.ident.clone(), IRKind::property());
        d.extends = clone_names(&self.extends);
        d.is_abstract = self.abs;
        d.module = match &self.module {
            Some(m) => Some(m.clone()),
            None => None,
        };
        d
    }
}

impl Link {
    /// The flat store record for this link: its name, the link kind
    /// tag, its declared base names and its module name.
    pub fn to_declaration(&self) -> (d: Declaration)
        ensures
            d@.ident == self.ident@,
            d@.kind == IRKind(Some(ObjKindIdent::Link)),
            d@.extends == (match self.extends {
                Some(v) => v.deep_view(),
                None => Seq::<Seq<char>>::empty(),
            }),
            d@.is_abstract == self.abs,
            !d@.is_scalar,
            d@.module == self.module.deep_view(),
    {
        let mut d = Declaration::new(self.ident.clone(), IRKind::link());
        d.extends = clone_names(&self.extends);
        d.is_abstract = self.abs;
        d.module = match &self.module {
            Some(m) => Some(m.clone()),
            None => None,
        };
        d
    }
}

} // verus!
