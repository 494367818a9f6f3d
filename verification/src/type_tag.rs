use vstd::prelude::*;
use vstd::arithmetic::power2::*;

use crate::bits::{lemma_align8_bounds, lemma_le_bytes_bound, s_load_le, BitReader};
use crate::error::Error;
use crate::registry::{lookup_type, TypeDef, TypeDefM, TypeList};

verus! {

/// A type tag that defines how object identities are read from the
/// stream and resolved against the registry.
pub trait TypeTag: Sized {
    /// What reading an identity at `pos` yields: a resolved type
    /// definition, no object, or an error, and the new position.
    spec fn identity_spec(data: Seq<u8>, pos: int, types: Seq<(u32, TypeDefM)>) -> Result<
        (Option<TypeDefM>, int),
        Error,
    >;

    /// Reading an identity consumes a forward, in-bounds span.
    proof fn identity_spec_mono(data: Seq<u8>, pos: int, types: Seq<(u32, TypeDefM)>)
        requires
            0 <= pos <= 8 * data.len(),
        ensures
            match Self::identity_spec(data, pos, types) {
                Ok((_, p1)) => pos <= p1 <= 8 * data.len(),
                Err(_) => true,
            },
    ;

    /// Reads the object identity from the reader and resolves a
    /// matching type definition.
    fn object_identity<'a>(reader: &mut BitReader, types: &'a TypeList) -> (r: Result<
        Option<&'a TypeDef>,
        Error,
    >)
        requires
            old(reader).wf(),
        ensures
            final(reader).wf(),
            final(reader).data@ == old(reader).data@,
            match r {
                Ok(Some(td)) => Self::identity_spec(old(reader).data@, old(reader).pos(), types@)
                    == Ok::<_, Error>((Some(td@), final(reader).pos())),
                Ok(None) => Self::identity_spec(old(reader).data@, old(reader).pos(), types@)
                    == Ok::<_, Error>((None::<TypeDefM>, final(reader).pos())),
                Err(e) => Self::identity_spec(old(reader).data@, old(reader).pos(), types@)
                    == Err::<(Option<TypeDefM>, int), _>(e),
            },
    ;
}

/// The [`TypeTag`] of regular PropertyClasses: a `u32` hash, with 0
/// meaning "no object".
pub struct PropertyClass;

impl TypeTag for PropertyClass {
    open spec fn identity_spec(data: Seq<u8>, pos: int, types: Seq<(u32, TypeDefM)>) -> Result<
        (Option<TypeDefM>, int),
        Error,
    > {
        match s_load_le(data, pos, 4) {
            Ok((hash, p1)) => if hash == 0 {
                Ok((None, p1))
            } else {
                match lookup_type(types, hash as u32) {
                    Some(td) => Ok((Some(td), p1)),
                    None => Err(Error::UnknownType),
                }
            },
            Err(e) => Err(e),
        }
    }

    proof fn identity_spec_mono(data: Seq<u8>, pos: int, types: Seq<(u32, TypeDefM)>) {
        lemma_align8_bounds(pos, data.len() as int);
    }

    fn object_identity<'a>(reader: &mut BitReader, types: &'a TypeList) -> (r: Result<
        Option<&'a TypeDef>,
        Error,
    >) {
        let ghost data = reader.data@;
        let ghost pos = reader.pos();
        let raw: u64 = match reader.load_le(4) {
            Ok(v) => v,
            Err(e) => {
                return Err(e);
            },
        };
        proof {
            lemma_le_bytes_bound(data, crate::bits::align8(pos) / 8, 4);
            lemma2_to64();
        }
        let hash: u32 = raw as u32;
        if hash == 0 {
            Ok(None)
        } else {
            match types.get(hash) {
                Some(td) => Ok(Some(td)),
                None => Err(Error::UnknownType),
            }
        }
    }
}

} // verus!
