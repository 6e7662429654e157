//! Composable optics (lenses, traversals and prisms) with verified laws,
//! and a small path language for selecting and updating JSON values.

pub mod example;
pub mod functor;
pub mod json;
pub mod lens;
pub mod prism;
pub mod traversal;
pub mod util;

pub use example::{Atom, AtomPoint, Molecule, MoleculeAtoms, Point, PointX};
pub use functor::{Applicative, Apply, Const, Functor, Identity, Leftmost, Monoid};
pub use json::parse::{
    array_idx_parser, cast_parser, cast_type_parser, obj_key_parser, setter_parser, token_parser,
    tokens_parser, tokens_parser_2, Cast, ErrorKind, Expression, Outcome, ParseError,
    RawExpression, Rendered, Selector, Setter, Token,
};
pub use json::text::JsonError;
pub use json::{
    arr_idx, object_insert, object_key, JArray, JBool, JNumber, JObject, JString, JsonMap, JsonModel, JsonValue,
    MapKey,
};
pub use lens::{IdentityLens, Lens, LensExt};
pub use prism::{idx, LiftPrism, Prism, PrismExt, VecIdx};
pub use traversal::{elems, Traversal, TraversalExt, VecElems};
pub use util::{Compose, Lift, TyEq};
