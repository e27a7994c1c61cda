//! What building or querying a model can fail with.
use vstd::prelude::*;
use vstd::string::*;

use crate::double::Double;

verus! {

/// A failure from building or querying a two-armed collision model. The query
/// variants are distinct so a caller can react to each (a velocity-barrier
/// caller treats `WitnessesCoincide` as deep penetration and holds or escapes,
/// while a bad-input variant is a genuine fault to surface).
#[derive(Debug)]
pub enum CollisionError {
    /// A query was handed a non-finite joint value (or threshold).
    NonFinite,
    /// The model has no checked pairs, so there is nothing to measure.
    NoPairs,
    /// Deep penetration: the nearest pair's witness points coincide, so the
    /// surface normal, and thus the distance gradient, is undefined.
    WitnessesCoincide { distance: Double },
    /// Model construction failed. The string is the underlying reason.
    Build(String),
}

impl CollisionError {
    /// The words for a failure. `distance` is the distance of coinciding
    /// witnesses, written as a signed decimal number.
    pub open spec fn text(self, distance: Seq<char>) -> Seq<char> {
        match self {
            CollisionError::NonFinite => "non-finite value in query input"@,
            CollisionError::NoPairs => "no checked pairs to evaluate"@,
            CollisionError::WitnessesCoincide { .. } => "witnesses coincide (d="@ + distance
                + "); distance gradient undefined"@,
            CollisionError::Build(reason) => "collision model build: "@ + reason@,
        }
    }

    /// The words for a failure. `distance` is the distance of coinciding
    /// witnesses, written as a signed decimal number.
    pub fn message(&self, distance: &str) -> (r: String)
        ensures
            r@ == self.text(distance@),
    {
        match self {
            CollisionError::NonFinite => String::from_str("non-finite value in query input"),
            CollisionError::NoPairs => String::from_str("no checked pairs to evaluate"),
            CollisionError::WitnessesCoincide { .. } => String::from_str(
                "witnesses coincide (d=",
            ).concat(distance).concat("); distance gradient undefined"),
            CollisionError::Build(reason) => String::from_str("collision model build: ").concat(
                reason.as_str(),
            ),
        }
    }
}

/// Why a model was not built, or a query not answered.
#[derive(Debug)]
pub enum ModelError {
    /// The headroom of the margin policy is not finite and positive.
    Headroom(Double),
    /// The margin policy has no reference pose.
    NoReferences,
    /// A reference pose of the margin policy holds a non-finite value.
    NonFiniteReference,
    /// Both chains start at this base link.
    IdenticalBases(String),
    /// Two bodies have this name.
    DuplicateBody(String),
    /// A pair names a body that the model does not have.
    UnknownBody(String),
    /// A pair names this body twice.
    SelfPair(String),
    /// The margin of the pair of these two bodies is not finite.
    NonFiniteMargin(String, String),
    /// A query was handed a non-finite joint value.
    NonFiniteJoints,
    /// The model has no checked pairs.
    NoPairs,
}

/// A [`ModelError`], its names as sequences of characters.
pub enum Fault {
    Headroom(Double),
    NoReferences,
    NonFiniteReference,
    IdenticalBases(Seq<char>),
    DuplicateBody(Seq<char>),
    UnknownBody(Seq<char>),
    SelfPair(Seq<char>),
    NonFiniteMargin(Seq<char>, Seq<char>),
    NonFiniteJoints,
    NoPairs,
}

impl View for ModelError {
    type V = Fault;

    open spec fn view(&self) -> Fault {
        match self {
            ModelError::Headroom(x) => Fault::Headroom(*x),
            ModelError::NoReferences => Fault::NoReferences,
            ModelError::NonFiniteReference => Fault::NonFiniteReference,
            ModelError::IdenticalBases(n) => Fault::IdenticalBases(n@),
            ModelError::DuplicateBody(n) => Fault::DuplicateBody(n@),
            ModelError::UnknownBody(n) => Fault::UnknownBody(n@),
            ModelError::SelfPair(n) => Fault::SelfPair(n@),
            ModelError::NonFiniteMargin(a, b) => Fault::NonFiniteMargin(a@, b@),
            ModelError::NonFiniteJoints => Fault::NonFiniteJoints,
            ModelError::NoPairs => Fault::NoPairs,
        }
    }
}

impl Fault {
    /// The words for a failure. `headroom` is the refused headroom written as
    /// a decimal number.
    pub open spec fn text(self, headroom: Seq<char>) -> Seq<char> {
        match self {
            Fault::Headroom(_) => "margin policy headroom must be finite and positive, got "@
                + headroom,
            Fault::NoReferences => "margin policy needs at least one reference pose"@,
            Fault::NonFiniteReference => "margin policy reference poses must be finite"@,
            Fault::IdenticalBases(n) => "left and right base links are both '"@ + n
                + "'; a bimanual model needs two chains"@,
            Fault::DuplicateBody(n) => "duplicate body name '"@ + n + "'"@,
            Fault::UnknownBody(n) => "pair references unknown body '"@ + n + "'"@,
            Fault::SelfPair(n) => "pair '"@ + n + "' against itself"@,
            Fault::NonFiniteMargin(a, b) => "pair "@ + a + "/"@ + b + " has non-finite margin"@,
            Fault::NonFiniteJoints => "non-finite joint configuration"@,
            Fault::NoPairs => "no pairs to check"@,
        }
    }
}

impl ModelError {
    /// The words for a failure. `headroom` is the refused headroom written as
    /// a decimal number.
    pub fn message(&self, headroom: &str) -> (r: String)
        ensures
            r@ == self@.text(headroom@),
    {
        match self {
            ModelError::Headroom(_) => String::from_str(
                "margin policy headroom must be finite and positive, got ",
            ).concat(headroom),
            ModelError::NoReferences => String::from_str(
                "margin policy needs at least one reference pose",
            ),
            ModelError::NonFiniteReference => String::from_str(
                "margin policy reference poses must be finite",
            ),
            ModelError::IdenticalBases(n) => String::from_str(
                "left and right base links are both '",
            ).concat(n.as_str()).concat("'; a bimanual model needs two chains"),
            ModelError::DuplicateBody(n) => String::from_str("duplicate body name '").concat(
                n.as_str(),
            ).concat("'"),
            ModelError::UnknownBody(n) => String::from_str(
                "pair references unknown body '",
            ).concat(n.as_str()).concat("'"),
            ModelError::SelfPair(n) => String::from_str("pair '").concat(n.as_str()).concat(
                "' against itself",
            ),
            ModelError::NonFiniteMargin(a, b) => String::from_str("pair ").concat(
                a.as_str(),
            ).concat("/").concat(b.as_str()).concat(" has non-finite margin"),
            ModelError::NonFiniteJoints => String::from_str("non-finite joint configuration"),
            ModelError::NoPairs => String::from_str("no pairs to check"),
        }
    }
}

/// `part` stands in `words` from place `i` on.
pub open spec fn quotes(words: Seq<char>, part: Seq<char>, i: int) -> bool {
    &&& 0 <= i
    &&& i + part.len() <= words.len()
    &&& words.subrange(i, i + part.len()) == part
}

proof fn lemma_quotes(before: Seq<char>, part: Seq<char>, after: Seq<char>)
    ensures
        quotes(before + part + after, part, before.len() as int),
{
    let words = before + part + after;
    let i = before.len() as int;
    assert(words.subrange(i, i + part.len()) =~= part);
}

/// The words for a failure quote what it is about in full: the refused
/// headroom, the name, or the names of the two bodies in their order.
pub proof fn law_words_quote_what_failed(fault: Fault, headroom: Seq<char>)
    ensures
        match fault {
            Fault::Headroom(_) => exists|i: int| quotes(fault.text(headroom), headroom, i),
            Fault::IdenticalBases(n) => exists|i: int| quotes(fault.text(headroom), n, i),
            Fault::DuplicateBody(n) => exists|i: int| quotes(fault.text(headroom), n, i),
            Fault::UnknownBody(n) => exists|i: int| quotes(fault.text(headroom), n, i),
            Fault::SelfPair(n) => exists|i: int| quotes(fault.text(headroom), n, i),
            Fault::NonFiniteMargin(a, b) => exists|i: int, j: int|
                {
                    &&& #[trigger] quotes(fault.text(headroom), a, i)
                    &&& #[trigger] quotes(fault.text(headroom), b, j)
                    &&& i + a.len() <= j
                },
            _ => true,
        },
{
    let none = Seq::<char>::empty();
    let words = fault.text(headroom);
    match fault {
        Fault::Headroom(_) => {
            let before = "margin policy headroom must be finite and positive, got "@;
            assert(words =~= before + headroom + none);
            lemma_quotes(before, headroom, none);
        },
        Fault::IdenticalBases(n) => {
            lemma_quotes(
                "left and right base links are both '"@,
                n,
                "'; a bimanual model needs two chains"@,
            );
        },
        Fault::DuplicateBody(n) => {
            lemma_quotes("duplicate body name '"@, n, "'"@);
        },
        Fault::UnknownBody(n) => {
            lemma_quotes("pair references unknown body '"@, n, "'"@);
        },
        Fault::SelfPair(n) => {
            lemma_quotes("pair '"@, n, "' against itself"@);
        },
        Fault::NonFiniteMargin(a, b) => {
            let (x, y, z) = ("pair "@, "/"@, " has non-finite margin"@);
            assert(words =~= x + a + (y + b + z));
            lemma_quotes(x, a, y + b + z);
            lemma_quotes(x + a + y, b, z);
            assert(words =~= (x + a + y) + b + z);
            assert(quotes(words, a, x.len() as int));
            assert(quotes(words, b, (x + a + y).len() as int));
        },
        _ => {},
    }
}

/// So do the words for a failed query or build: the distance, or the reason.
pub proof fn law_words_quote_what_a_caller_sees(error: CollisionError, distance: Seq<char>)
    ensures
        match error {
            CollisionError::WitnessesCoincide { .. } => exists|i: int|
                quotes(error.text(distance), distance, i),
            CollisionError::Build(reason) => exists|i: int|
                quotes(error.text(distance), reason@, i),
            _ => true,
        },
{
    let words = error.text(distance);
    match error {
        CollisionError::WitnessesCoincide { .. } => {
            lemma_quotes("witnesses coincide (d="@, distance, "); distance gradient undefined"@);
        },
        CollisionError::Build(reason) => {
            let none = Seq::<char>::empty();
            let before = "collision model build: "@;
            assert(words =~= before + reason@ + none);
            lemma_quotes(before, reason@, none);
        },
        _ => {},
    }
}

} // verus!
