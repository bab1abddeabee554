//! Typed message arguments: the values a frame body carries, their wire
//! type tags, and signature matching.

use vstd::prelude::*;

verus! {

/// Wire type tag of one positional argument. A registered method's
/// input and output signatures are sequences of tags.
#[derive(Clone, Copy, PartialEq, Eq, Structural, Debug)]
pub enum Tag {
    Str,
    U64,
    Bool,
}

/// A tagged argument value. Text travels as raw bytes: the engine does
/// not interpret character encodings.
#[derive(Clone, PartialEq, Eq, Debug)]
pub enum Argument {
    Str(Vec<u8>),
    U64(u64),
    Bool(bool),
}

/// Mathematical model of an argument.
#[verifier::ext_equal]
pub enum ArgV {
    Str(Seq<u8>),
    U64(u64),
    Bool(bool),
}

impl View for Argument {
    type V = ArgV;

    open spec fn view(&self) -> ArgV {
        match self {
            Argument::Str(v) => ArgV::Str(v@),
            Argument::U64(x) => ArgV::U64(*x),
            Argument::Bool(b) => ArgV::Bool(*b),
        }
    }
}

/// The models of a vector of arguments, element by element.
pub open spec fn args_view(args: Seq<Argument>) -> Seq<ArgV> {
    args.map_values(|a: Argument| a@)
}

/// The tag an argument value carries.
pub open spec fn tag_of(a: ArgV) -> Tag {
    match a {
        ArgV::Str(_) => Tag::Str,
        ArgV::U64(_) => Tag::U64,
        ArgV::Bool(_) => Tag::Bool,
    }
}

/// Arguments match a signature when the arities are equal and every
/// position carries the declared tag.
pub open spec fn args_match_sig(args: Seq<ArgV>, sig: Seq<Tag>) -> bool {
    &&& args.len() == sig.len()
    &&& forall|i: int| 0 <= i < args.len() ==> tag_of(args[i]) == sig[i]
}

/// A prefix check: the first `sig.len()` arguments carry the declared
/// tags; trailing arguments beyond the signature are not constrained.
pub open spec fn args_cover_sig(args: Seq<ArgV>, sig: Seq<Tag>) -> bool {
    &&& args.len() >= sig.len()
    &&& forall|i: int| 0 <= i < sig.len() ==> tag_of(args[i]) == sig[i]
}

/// The tag of one argument.
pub fn arg_tag(a: &Argument) -> (t: Tag)
    ensures
        t == tag_of(a@),
{
    match a {
        Argument::Str(_) => Tag::Str,
        Argument::U64(_) => Tag::U64,
        Argument::Bool(_) => Tag::Bool,
    }
}

/// Whether `args` matches `sig` exactly (arity and tags).
pub fn check_args_match(args: &Vec<Argument>, sig: &Vec<Tag>) -> (r: bool)
    ensures
        r == args_match_sig(args_view(args@), sig@),
{
    if args.len() != sig.len() {
        return false;
    }
    let mut i: usize = 0;
    while i < args.len()
        invariant
            i <= args@.len(),
            args@.len() == sig@.len(),
            forall|m: int| 0 <= m < i ==> tag_of(args_view(args@)[m]) == sig@[m],
        decreases args@.len() - i,
    {
        let t: Tag = arg_tag(&args[i]);
        if t != sig[i] {
            proof {
                assert(args_view(args@)[i as int] == args@[i as int]@);
            }
            return false;
        }
        i = i + 1;
        proof {
            assert(args_view(args@)[i - 1] == args@[i - 1]@);
        }
    }
    true
}

} // verus!
