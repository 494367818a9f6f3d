use vstd::prelude::*;

use crate::flags::PropertyFlags;

verus! {

/// A registry value that is either textual or numeric.
#[derive(Clone, PartialEq, Debug)]
pub enum StringOrInt {
    Str(String),
    Int(u32),
}

/// Model of a [`StringOrInt`].
pub enum SoiM {
    Str(Seq<char>),
    Int(u32),
}

impl View for StringOrInt {
    type V = SoiM;

    open spec fn view(&self) -> SoiM {
        match self {
            StringOrInt::Str(s) => SoiM::Str(s@),
            StringOrInt::Int(v) => SoiM::Int(*v),
        }
    }
}

/// The model of a variant list.
pub open spec fn opts_view(s: Seq<(String, StringOrInt)>) -> Seq<(Seq<char>, SoiM)> {
    Seq::new(s.len(), |i: int| (s[i].0@, s[i].1@))
}

/// One property of a type definition: its name, its identifying
/// hash, its textual type name, its flags, whether it is a dynamic
/// sequence, and its enum variants.
#[derive(Clone, PartialEq, Debug)]
pub struct Property {
    pub name: String,
    pub hash: u32,
    pub ty: String,
    pub flags: PropertyFlags,
    pub dynamic: bool,
    pub enum_options: Vec<(String, StringOrInt)>,
}

/// Model of a [`Property`].
pub struct PropM {
    pub name: Seq<char>,
    pub hash: u32,
    pub ty: Seq<char>,
    pub flags: u32,
    pub dynamic: bool,
    pub enum_options: Seq<(Seq<char>, SoiM)>,
}

impl View for Property {
    type V = PropM;

    open spec fn view(&self) -> PropM {
        PropM {
            name: self.name@,
            hash: self.hash,
            ty: self.ty@,
            flags: self.flags.bits,
            dynamic: self.dynamic,
            enum_options: opts_view(self.enum_options@),
        }
    }
}

/// The models of a property list, in order.
pub open spec fn props_view(s: Seq<Property>) -> Seq<PropM> {
    Seq::new(s.len(), |i: int| s[i]@)
}

/// A type definition: its name and its properties in declaration
/// order.
#[derive(Clone, PartialEq, Debug)]
pub struct TypeDef {
    pub name: String,
    pub properties: Vec<Property>,
}

/// Model of a [`TypeDef`].
pub struct TypeDefM {
    pub name: Seq<char>,
    pub properties: Seq<PropM>,
}

impl View for TypeDef {
    type V = TypeDefM;

    open spec fn view(&self) -> TypeDefM {
        TypeDefM { name: self.name@, properties: props_view(self.properties@) }
    }
}

/// The first property carrying `hash`, if any.
pub open spec fn find_prop(props: Seq<PropM>, hash: u32) -> Option<PropM>
    decreases props.len(),
{
    if props.len() == 0 {
        None
    } else if props[0].hash == hash {
        Some(props[0])
    } else {
        find_prop(props.drop_first(), hash)
    }
}

/// Finds the first property carrying `hash`.
pub fn find_property<'a>(props: &'a Vec<Property>, hash: u32) -> (r: Option<&'a Property>)
    ensures
        match r {
            Some(p) => find_prop(props_view(props@), hash) == Some(p@),
            None => find_prop(props_view(props@), hash) is None,
        },
{
    let ghost pv = props_view(props@);
    let mut i: usize = 0;
    proof {
        assert(pv.skip(0) =~= pv);
    }
    while i < props.len()
        invariant
            0 <= i <= props.len(),
            pv == props_view(props@),
            find_prop(pv, hash) == find_prop(pv.skip(i as int), hash),
        decreases props.len() - i,
    {
        proof {
            assert(pv.skip(i as int)[0] == pv[i as int]);
            assert(pv.skip(i as int).drop_first() =~= pv.skip(i + 1));
        }
        if props[i].hash == hash {
            return Some(&props[i]);
        }
        i = i + 1;
    }
    proof {
        assert(pv.skip(i as int).len() == 0);
    }
    None
}

/// The registry: type definitions keyed by their 32-bit hash.
pub struct TypeList {
    pub list: Vec<(u32, TypeDef)>,
}

impl View for TypeList {
    type V = Seq<(u32, TypeDefM)>;

    open spec fn view(&self) -> Seq<(u32, TypeDefM)> {
        Seq::new(self.list@.len(), |i: int| (self.list@[i].0, self.list@[i].1@))
    }
}

/// The first variant whose integer value equals `v`, if any.
pub open spec fn find_enum_variant(opts: Seq<(Seq<char>, SoiM)>, v: u32) -> Option<Seq<char>>
    decreases opts.len(),
{
    if opts.len() == 0 {
        None
    } else if opts[0].1 matches SoiM::Int(w) && opts[0].1 == SoiM::Int(v) {
        Some(opts[0].0)
    } else {
        find_enum_variant(opts.drop_first(), v)
    }
}

/// Finds the first variant carrying the integer value `v`.
pub fn find_variant<'a>(opts: &'a Vec<(String, StringOrInt)>, v: u32) -> (r: Option<&'a String>)
    ensures
        match r {
            Some(name) => find_enum_variant(opts_view(opts@), v) == Some(name@),
            None => find_enum_variant(opts_view(opts@), v) is None,
        },
{
    let ghost ov = opts_view(opts@);
    let mut i: usize = 0;
    proof {
        assert(ov.skip(0) =~= ov);
    }
    while i < opts.len()
        invariant
            0 <= i <= opts.len(),
            ov == opts_view(opts@),
            find_enum_variant(ov, v) == find_enum_variant(ov.skip(i as int), v),
        decreases opts.len() - i,
    {
        proof {
            assert(ov.skip(i as int)[0] == ov[i as int]);
            assert(ov.skip(i as int).drop_first() =~= ov.skip(i + 1));
        }
        let matched: bool = match &opts[i].1 {
            StringOrInt::Int(w) => *w == v,
            StringOrInt::Str(_) => false,
        };
        if matched {
            return Some(&opts[i].0);
        }
        i = i + 1;
    }
    proof {
        assert(ov.skip(i as int).len() == 0);
    }
    None
}

/// The first type definition registered under `hash`, if any.
pub open spec fn lookup_type(types: Seq<(u32, TypeDefM)>, hash: u32) -> Option<TypeDefM>
    decreases types.len(),
{
    if types.len() == 0 {
        None
    } else if types[0].0 == hash {
        Some(types[0].1)
    } else {
        lookup_type(types.drop_first(), hash)
    }
}

impl TypeList {
    pub fn new() -> (r: TypeList)
        ensures
            r@.len() == 0,
    {
        TypeList { list: Vec::new() }
    }

    /// Registers a type definition under `hash`.
    pub fn insert(&mut self, hash: u32, def: TypeDef)
        ensures
            final(self)@ =~= old(self)@.push((hash, def@)),
    {
        self.list.push((hash, def));
        proof {
            assert(final(self)@ =~= old(self)@.push((hash, def@)));
        }
    }

    /// Looks a type definition up by its hash.
    pub fn get(&self, hash: u32) -> (r: Option<&TypeDef>)
        ensures
            match r {
                Some(td) => lookup_type(self@, hash) == Some(td@),
                None => lookup_type(self@, hash) is None,
            },
    {
        let mut i: usize = 0;
        proof {
            assert(self@.skip(0) =~= self@);
        }
        while i < self.list.len()
            invariant
                0 <= i <= self.list.len(),
                lookup_type(self@, hash) == lookup_type(self@.skip(i as int), hash),
            decreases self.list.len() - i,
        {
            if self.list[i].0 == hash {
                proof {
                    assert(self@.skip(i as int)[0] == self@[i as int]);
                }
                return Some(&self.list[i].1);
            }
            proof {
                assert(self@.skip(i as int)[0] == self@[i as int]);
                assert(self@.skip(i as int).drop_first() =~= self@.skip(i + 1));
            }
            i = i + 1;
        }
        proof {
            assert(self@.skip(i as int).len() == 0);
        }
        None
    }
}

} // verus!
