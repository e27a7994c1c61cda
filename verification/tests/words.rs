//! The words of the failures.
use bimanual_collision::double::Double;
use bimanual_collision::error::{CollisionError, ModelError};

#[test]
fn collision_errors_read_as_sentences() {
    let d = Double { bits: (-0.0125f64).to_bits() };
    let coincide = CollisionError::WitnessesCoincide { distance: d };
    assert_eq!(CollisionError::NonFinite.message(""), "non-finite value in query input");
    assert_eq!(CollisionError::NoPairs.message(""), "no checked pairs to evaluate");
    assert_eq!(
        coincide.message(&format!("{:+.4}", -0.0125f64)),
        "witnesses coincide (d=-0.0125); distance gradient undefined"
    );
    assert_eq!(CollisionError::Build("no mesh".to_string()).message(""), "collision model build: no mesh");
}

#[test]
fn model_errors_read_as_sentences() {
    let n = |s: &str| s.to_string();
    let zero = Double { bits: 0 };
    let cases = vec![
        (ModelError::Headroom(zero), "margin policy headroom must be finite and positive, got 0"),
        (ModelError::NoReferences, "margin policy needs at least one reference pose"),
        (ModelError::NonFiniteReference, "margin policy reference poses must be finite"),
        (
            ModelError::IdenticalBases(n("base")),
            "left and right base links are both 'base'; a bimanual model needs two chains",
        ),
        (ModelError::DuplicateBody(n("twin")), "duplicate body name 'twin'"),
        (ModelError::UnknownBody(n("ghost")), "pair references unknown body 'ghost'"),
        (ModelError::SelfPair(n("lone")), "pair 'lone' against itself"),
        (ModelError::NonFiniteMargin(n("a"), n("b")), "pair a/b has non-finite margin"),
        (ModelError::NonFiniteJoints, "non-finite joint configuration"),
        (ModelError::NoPairs, "no pairs to check"),
    ];
    for (e, words) in cases {
        assert_eq!(e.message("0"), words);
    }
}
