//! Tokens with their source spans, and the syntax tree of type declarations.
use vstd::prelude::*;

verus! {

/// The span of a token: byte offsets of its first and of its last character.
#[derive(Debug, Clone, Copy, PartialEq, Eq, Structural)]
pub struct TMeta {
    pub start: usize,
    pub end: usize,
}

/// A token. A number keeps its text in the canonical form the tokenizer
/// assembled (sign, digits, fraction, exponent with a lower-case `e`).
#[derive(Debug)]
pub enum Token {
    LowerSymbol(TMeta, String),
    UpperSymbol(TMeta, String),
    Number(TMeta, String),
    String(TMeta, String),
    LParen(TMeta),
    RParen(TMeta),
    LCurl(TMeta),
    RCurl(TMeta),
    LAngle(TMeta),
    RAngle(TMeta),
    SLArrow(TMeta),
    SRArrow(TMeta),
    DLArrow(TMeta),
    DRArrow(TMeta),
    Colon(TMeta),
    Dot(TMeta),
    Comma(TMeta),
}

/// The variant of a token, without its data.
#[derive(Debug, Clone, Copy, PartialEq, Eq, Structural)]
pub enum Kind {
    LowerSymbol,
    UpperSymbol,
    Number,
    Str,
    LParen,
    RParen,
    LCurl,
    RCurl,
    LAngle,
    RAngle,
    SLArrow,
    SRArrow,
    DLArrow,
    DRArrow,
    Colon,
    Dot,
    Comma,
}

/// Whether tokens of this kind carry text.
pub open spec fn has_text(k: Kind) -> bool {
    k == Kind::LowerSymbol || k == Kind::UpperSymbol || k == Kind::Number || k == Kind::Str
}

impl Token {
    pub open spec fn spec_meta(&self) -> TMeta {
        match self {
            Token::LowerSymbol(m, _) => *m,
            Token::UpperSymbol(m, _) => *m,
            Token::Number(m, _) => *m,
            Token::String(m, _) => *m,
            Token::LParen(m) => *m,
            Token::RParen(m) => *m,
            Token::LCurl(m) => *m,
            Token::RCurl(m) => *m,
            Token::LAngle(m) => *m,
            Token::RAngle(m) => *m,
            Token::SLArrow(m) => *m,
            Token::SRArrow(m) => *m,
            Token::DLArrow(m) => *m,
            Token::DRArrow(m) => *m,
            Token::Colon(m) => *m,
            Token::Dot(m) => *m,
            Token::Comma(m) => *m,
        }
    }

    pub open spec fn spec_kind(&self) -> Kind {
        match self {
            Token::LowerSymbol(..) => Kind::LowerSymbol,
            Token::UpperSymbol(..) => Kind::UpperSymbol,
            Token::Number(..) => Kind::Number,
            Token::String(..) => Kind::Str,
            Token::LParen(_) => Kind::LParen,
            Token::RParen(_) => Kind::RParen,
            Token::LCurl(_) => Kind::LCurl,
            Token::RCurl(_) => Kind::RCurl,
            Token::LAngle(_) => Kind::LAngle,
            Token::RAngle(_) => Kind::RAngle,
            Token::SLArrow(_) => Kind::SLArrow,
            Token::SRArrow(_) => Kind::SRArrow,
            Token::DLArrow(_) => Kind::DLArrow,
            Token::DRArrow(_) => Kind::DRArrow,
            Token::Colon(_) => Kind::Colon,
            Token::Dot(_) => Kind::Dot,
            Token::Comma(_) => Kind::Comma,
        }
    }

    /// The text a token carries; empty for punctuation.
    pub open spec fn text(&self) -> Seq<char> {
        match self {
            Token::LowerSymbol(_, s) => s@,
            Token::UpperSymbol(_, s) => s@,
            Token::Number(_, s) => s@,
            Token::String(_, s) => s@,
            _ => Seq::empty(),
        }
    }

    /// A token as plain values: its kind, its span and its text.
    pub open spec fn model(&self) -> (Kind, TMeta, Seq<char>) {
        (self.spec_kind(), self.spec_meta(), self.text())
    }

    pub open spec fn is_symbol(&self) -> bool {
        self is LowerSymbol || self is UpperSymbol
    }

    /// The span of the token.
    #[verifier::when_used_as_spec(spec_meta)]
    pub fn meta(&self) -> (r: TMeta)
        ensures
            r == self.spec_meta(),
    {
        match self {
            Token::LowerSymbol(m, _) => *m,
            Token::UpperSymbol(m, _) => *m,
            Token::Number(m, _) => *m,
            Token::String(m, _) => *m,
            Token::LParen(m) => *m,
            Token::RParen(m) => *m,
            Token::LCurl(m) => *m,
            Token::RCurl(m) => *m,
            Token::LAngle(m) => *m,
            Token::RAngle(m) => *m,
            Token::SLArrow(m) => *m,
            Token::SRArrow(m) => *m,
            Token::DLArrow(m) => *m,
            Token::DRArrow(m) => *m,
            Token::Colon(m) => *m,
            Token::Dot(m) => *m,
            Token::Comma(m) => *m,
        }
    }

    /// The kind of the token.
    #[verifier::when_used_as_spec(spec_kind)]
    pub fn kind(&self) -> (r: Kind)
        ensures
            r == self.spec_kind(),
    {
        match self {
            Token::LowerSymbol(..) => Kind::LowerSymbol,
            Token::UpperSymbol(..) => Kind::UpperSymbol,
            Token::Number(..) => Kind::Number,
            Token::String(..) => Kind::Str,
            Token::LParen(_) => Kind::LParen,
            Token::RParen(_) => Kind::RParen,
            Token::LCurl(_) => Kind::LCurl,
            Token::RCurl(_) => Kind::RCurl,
            Token::LAngle(_) => Kind::LAngle,
            Token::RAngle(_) => Kind::RAngle,
            Token::SLArrow(_) => Kind::SLArrow,
            Token::SRArrow(_) => Kind::SRArrow,
            Token::DLArrow(_) => Kind::DLArrow,
            Token::DRArrow(_) => Kind::DRArrow,
            Token::Colon(_) => Kind::Colon,
            Token::Dot(_) => Kind::Dot,
            Token::Comma(_) => Kind::Comma,
        }
    }

    /// The name of a symbol token. Only symbols have one.
    pub fn symbol_name(&self) -> (r: String)
        requires
            self.is_symbol(),
        ensures
            r@ == self.text(),
    {
        match self {
            Token::LowerSymbol(_, name) => name.clone(),
            Token::UpperSymbol(_, name) => name.clone(),
            _ => String::new(),
        }
    }

    /// A token with the same kind, span and text.
    pub fn duplicate(&self) -> (r: Token)
        ensures
            r.model() == self.model(),
    {
        match self {
            Token::LowerSymbol(m, s) => Token::LowerSymbol(*m, s.clone()),
            Token::UpperSymbol(m, s) => Token::UpperSymbol(*m, s.clone()),
            Token::Number(m, s) => Token::Number(*m, s.clone()),
            Token::String(m, s) => Token::String(*m, s.clone()),
            Token::LParen(m) => Token::LParen(*m),
            Token::RParen(m) => Token::RParen(*m),
            Token::LCurl(m) => Token::LCurl(*m),
            Token::RCurl(m) => Token::RCurl(*m),
            Token::LAngle(m) => Token::LAngle(*m),
            Token::RAngle(m) => Token::RAngle(*m),
            Token::SLArrow(m) => Token::SLArrow(*m),
            Token::SRArrow(m) => Token::SRArrow(*m),
            Token::DLArrow(m) => Token::DLArrow(*m),
            Token::DRArrow(m) => Token::DRArrow(*m),
            Token::Colon(m) => Token::Colon(*m),
            Token::Dot(m) => Token::Dot(*m),
            Token::Comma(m) => Token::Comma(*m),
        }
    }

    /// The token of the given kind and span; `text` is kept by the kinds
    /// that carry text and dropped by the others.
    pub fn new(kind: Kind, meta: TMeta, text: String) -> (r: Token)
        ensures
            r.spec_kind() == kind,
            r.spec_meta() == meta,
            r.text() == if has_text(kind) {
                text@
            } else {
                Seq::empty()
            },
    {
        match kind {
            Kind::LowerSymbol => Token::LowerSymbol(meta, text),
            Kind::UpperSymbol => Token::UpperSymbol(meta, text),
            Kind::Number => Token::Number(meta, text),
            Kind::Str => Token::String(meta, text),
            Kind::LParen => Token::LParen(meta),
            Kind::RParen => Token::RParen(meta),
            Kind::LCurl => Token::LCurl(meta),
            Kind::RCurl => Token::RCurl(meta),
            Kind::LAngle => Token::LAngle(meta),
            Kind::RAngle => Token::RAngle(meta),
            Kind::SLArrow => Token::SLArrow(meta),
            Kind::SRArrow => Token::SRArrow(meta),
            Kind::DLArrow => Token::DLArrow(meta),
            Kind::DRArrow => Token::DRArrow(meta),
            Kind::Colon => Token::Colon(meta),
            Kind::Dot => Token::Dot(meta),
            Kind::Comma => Token::Comma(meta),
        }
    }
}

/// The spans of the tokens a syntax node was parsed from, in order.
#[derive(Debug)]
pub struct AMeta {
    pub token_meta: Vec<TMeta>,
}

/// A type expression.
#[derive(Debug)]
pub enum Type {
    /// A named type without arguments.
    Concrete(AMeta, String),
    /// A type variable.
    Generic(AMeta, String),
    /// A named type applied to one type argument.
    Index(AMeta, String, Box<Type>),
    /// A function type; arrows nest to the right.
    Arrow { meta: AMeta, src: Box<Type>, dest: Box<Type> },
}

/// One case of a tagged union, with its positional field types.
#[derive(Debug)]
pub enum ConsCase {
    Position { meta: AMeta, name: String, params: Vec<Type> },
}

/// A declaration of a tagged union with its type parameters and cases.
#[derive(Debug)]
pub struct ConsDef {
    pub meta: AMeta,
    pub name: String,
    pub type_params: Vec<String>,
    pub cons: Vec<ConsCase>,
}

/// A type expression as plain values.
pub enum TypeModel {
    Concrete(Seq<TMeta>, Seq<char>),
    Generic(Seq<TMeta>, Seq<char>),
    Index(Seq<TMeta>, Seq<char>, Box<TypeModel>),
    Arrow(Seq<TMeta>, Box<TypeModel>, Box<TypeModel>),
}

/// A case of a tagged union as plain values.
pub struct CaseModel {
    pub meta: Seq<TMeta>,
    pub name: Seq<char>,
    pub params: Seq<TypeModel>,
}

/// A declaration as plain values.
pub struct DefModel {
    pub meta: Seq<TMeta>,
    pub name: Seq<char>,
    pub type_params: Seq<Seq<char>>,
    pub cons: Seq<CaseModel>,
}

impl Type {
    pub open spec fn model(&self) -> TypeModel
        decreases self,
    {
        match self {
            Type::Concrete(m, n) => TypeModel::Concrete(m.token_meta@, n@),
            Type::Generic(m, n) => TypeModel::Generic(m.token_meta@, n@),
            Type::Index(m, n, t) => TypeModel::Index(m.token_meta@, n@, Box::new(t.model())),
            Type::Arrow { meta, src, dest } => TypeModel::Arrow(
                meta.token_meta@,
                Box::new(src.model()),
                Box::new(dest.model()),
            ),
        }
    }
}

/// The models of a list of types.
pub open spec fn types_model(ts: Seq<Type>) -> Seq<TypeModel> {
    ts.map_values(|t: Type| t.model())
}

impl ConsCase {
    pub open spec fn model(&self) -> CaseModel {
        match self {
            ConsCase::Position { meta, name, params } => CaseModel {
                meta: meta.token_meta@,
                name: name@,
                params: types_model(params@),
            },
        }
    }
}

/// The models of a list of cases.
pub open spec fn cases_model(cs: Seq<ConsCase>) -> Seq<CaseModel> {
    cs.map_values(|c: ConsCase| c.model())
}

/// The texts of a list of names.
pub open spec fn names_model(ns: Seq<String>) -> Seq<Seq<char>> {
    ns.map_values(|n: String| n@)
}

impl ConsDef {
    pub open spec fn model(&self) -> DefModel {
        DefModel {
            meta: self.meta.token_meta@,
            name: self.name@,
            type_params: names_model(self.type_params@),
            cons: cases_model(self.cons@),
        }
    }
}

/// The models of a list of declarations.
pub open spec fn defs_model(ds: Seq<ConsDef>) -> Seq<DefModel> {
    ds.map_values(|d: ConsDef| d.model())
}

} // verus!
