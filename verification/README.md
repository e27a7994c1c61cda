# bimanual_collision

Self-collision checking for a two-armed robot, verified with Verus.

The library wraps every link in capsules, derives which pairs of bodies are
worth checking, rebases the pairs that are close in poses the caller declares
legitimate, and answers, for two joint configurations, how close the robot is to
touching itself and where.

## Layout

- `src/` is the verified library.
  - `double.rs`, `rounding.rs`, `arithmetic.rs`: double-precision numbers held by
    their encodings; sum, difference, product, quotient, square root and order
    are computed on integers and proved to be the correctly rounded results.
  - `geometry.rs`: vectors, capsules and poses over those numbers.
  - `fit.rs`: one bounding capsule for a cloud of points.
  - `pairs.rs`: the structural rules that pick the checked pairs.
  - `policy.rs`: margins from reference poses, and the band that fits them.
  - `scan.rs`: the closest approach over tables of measurements.
  - `model.rs`: building, placing and querying a model.
  - `queries.rs`: what queries depend on, and how their readings compare.
  - `laws.rs`: what holds of models derived from a policy.
  - `hull.rs`: faces and lower bounds, on exact numbers.
  - `spread.rs`: the axis of a fit is the direction of largest spread.
  - `bounds.rs`: bounded clouds get finite capsules.
  - `error.rs`: what can go wrong, and the words for it.
- `tests/` runs the library: the arithmetic against the machine's, fits against
  the same construction in floating point, and a small robot from end to end.
- `app/` puts the library behind `f64`, nalgebra and the file system. It is
  generic over a `Robot`, which brings the description parser, the kinematics
  and the capsule distances.

## What is proved, and from what

Nothing is taken on trust: the library has no unverified item. What floating
point has to compute comes in as functions, and each contract says what follows
for every answer they may give. A few promises need more of them (that they give
one answer per argument, that a distance is a number, by how much it may miss the
exact one); the laws say so.

Numbers in proofs are whole multiples of the smallest positive double, so
"reads the headroom" is a statement about integers. Where rounding a margin
loses something, `policy::shortfall` names how much, and
`policy::law_rebasing_is_accurate` bounds it.
