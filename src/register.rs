use vstd::prelude::*;

use crate::names::NameMap;

verus! {

/// The encoding a register's words carry.
#[derive(Clone, Copy, PartialEq, Eq, Structural, Debug)]
pub enum DataType {
    UInt16,
    UInt32,
    UInt64,
    UInt128,
    Int32,
    Enum16,
    /// A fixed 66-byte blob.
    Sized,
    /// An IEEE-754 single-precision float.
    Float32,
    Boolean,
}

/// A named register of the device: `len` words starting at word address `addr`.
#[derive(Debug)]
pub struct Register {
    pub name: String,
    pub addr: u16,
    pub len: u16,
    pub data_type: DataType,
}

/// One past the last word address a register occupies.
pub open spec fn end_of(r: Register) -> int {
    r.addr as int + r.len as int
}

impl Register {
    /// A copy of the register.
    pub fn duplicate(&self) -> (r: Register)
        ensures
            r == *self,
    {
        Register { name: self.name.clone(), addr: self.addr, len: self.len, data_type: self.data_type }
    }
}

/// The type a tag of a definition record names, if any.
pub open spec fn tag_type(tag: Seq<char>) -> Option<DataType> {
    if tag == "UInt16"@ {
        Some(DataType::UInt16)
    } else if tag == "UInt32"@ {
        Some(DataType::UInt32)
    } else if tag == "UInt64"@ {
        Some(DataType::UInt64)
    } else if tag == "UInt128"@ {
        Some(DataType::UInt128)
    } else if tag == "Int32"@ {
        Some(DataType::Int32)
    } else if tag == "Enum16"@ {
        Some(DataType::Enum16)
    } else if tag == "Sized+Uint16[31]"@ {
        Some(DataType::Sized)
    } else if tag == "IEEE-754 float32"@ {
        Some(DataType::Float32)
    } else if tag == "boolean"@ {
        Some(DataType::Boolean)
    } else {
        None
    }
}

impl DataType {
    /// The type named by a tag of a definition record.
    pub fn from_tag(tag: &String) -> (r: Option<DataType>)
        ensures
            r == tag_type(tag@),
    {
        if *tag == String::from_str("UInt16") {
            Some(DataType::UInt16)
        } else if *tag == String::from_str("UInt32") {
            Some(DataType::UInt32)
        } else if *tag == String::from_str("UInt64") {
            Some(DataType::UInt64)
        } else if *tag == String::from_str("UInt128") {
            Some(DataType::UInt128)
        } else if *tag == String::from_str("Int32") {
            Some(DataType::Int32)
        } else if *tag == String::from_str("Enum16") {
            Some(DataType::Enum16)
        } else if *tag == String::from_str("Sized+Uint16[31]") {
            Some(DataType::Sized)
        } else if *tag == String::from_str("IEEE-754 float32") {
            Some(DataType::Float32)
        } else if *tag == String::from_str("boolean") {
            Some(DataType::Boolean)
        } else {
            None
        }
    }
}

/// One entry of a register definition file: `len` is a length in bits.
#[derive(Debug)]
pub struct RegisterDefinition {
    pub id: u16,
    pub name: String,
    pub type_: String,
    pub len: u16,
}

/// A definition record was not usable.
#[derive(Debug)]
pub enum DefinitionError {
    /// A record names a type tag that is not known; the tag.
    UnknownType(String),
}

/// The register a definition describes, its length turned from bits into
/// whole words.
pub open spec fn register_of(d: RegisterDefinition) -> Register {
    Register {
        name: d.name,
        addr: d.id,
        len: d.len / 16,
        data_type: tag_type(d.type_@).unwrap(),
    }
}

pub open spec fn tags_known(defs: Seq<RegisterDefinition>) -> bool {
    forall|i: int| 0 <= i < defs.len() ==> (#[trigger] tag_type(defs[i].type_@)) is Some
}

/// The catalog the definitions make: a later definition of a name replaces an
/// earlier one.
pub open spec fn catalog_of(defs: Seq<RegisterDefinition>) -> Map<Seq<char>, Register>
    decreases defs.len(),
{
    if defs.len() == 0 {
        Map::empty()
    } else {
        catalog_of(defs.drop_last()).insert(defs.last().name@, register_of(defs.last()))
    }
}

/// Each register of the catalog is filed under its own name.
pub open spec fn catalog_ok(m: NameMap<Register>) -> bool {
    &&& m.wf()
    &&& forall|k: Seq<char>| #[trigger] m@.contains_key(k) ==> m@[k].name@ == k
}

/// Builds the catalog of the definitions, keyed by name; of two definitions
/// with one name the later is kept. Fails on the first record whose type tag
/// is not known.
pub fn load_definitions(defs: Vec<RegisterDefinition>) -> (r: Result<
    NameMap<Register>,
    DefinitionError,
>)
    ensures
        r is Ok <==> tags_known(defs@),
        r matches Ok(m) ==> catalog_ok(m) && m@ == catalog_of(defs@),
        r matches Err(DefinitionError::UnknownType(tag)) ==> exists|i: int|
            0 <= i < defs@.len() && tags_known(defs@.subrange(0, i)) && tag_type(defs@[i].type_@)
                is None && tag@ == defs@[i].type_@,
{
    let ghost orig = defs@;
    let mut rest = defs;
    let mut m: NameMap<Register> = NameMap::new();
    let n = rest.len();
    let mut i: usize = 0;
    while i < n
        invariant
            n == orig.len(),
            orig == defs@,
            0 <= i <= n,
            rest@ == orig.subrange(i as int, n as int),
            tags_known(orig.subrange(0, i as int)),
            catalog_ok(m),
            m@ == catalog_of(orig.subrange(0, i as int)),
        decreases n - i,
    {
        let d = rest.remove(0);
        assert(d == orig[i as int]);
        assert(orig.subrange(0, i + 1).drop_last() =~= orig.subrange(0, i as int));
        match DataType::from_tag(&d.type_) {
            Some(data_type) => {
                let reg = Register { name: d.name, addr: d.id, len: d.len / 16, data_type };
                assert(reg == register_of(d));
                let key = reg.name.clone();
                m.insert(key, reg);
                proof {
                    let next = orig.subrange(0, i + 1);
                    assert forall|j: int| 0 <= j < next.len() implies (#[trigger] tag_type(
                        next[j].type_@,
                    )) is Some by {
                        if j < i {
                            assert(next[j] == orig.subrange(0, i as int)[j]);
                        }
                    }
                }
            },
            None => {
                assert(orig.subrange(0, i as int).len() == i);
                assert(tag_type(orig[i as int].type_@) is None);
                assert(!tags_known(orig));
                return Err(DefinitionError::UnknownType(d.type_));
            },
        }
        i = i + 1;
        assert(rest@ =~= orig.subrange(i as int, n as int));
    }
    assert(orig.subrange(0, n as int) =~= orig);
    Ok(m)
}

/// Of two definitions of one name, the catalog keeps only the second.
pub proof fn lemma_last_write_wins(a: RegisterDefinition, b: RegisterDefinition)
    requires
        a.name@ == b.name@,
    ensures
        catalog_of(seq![a, b]) == Map::<Seq<char>, Register>::empty().insert(b.name@, register_of(b)),
{
    let s = seq![a, b];
    assert(s.drop_last() =~= seq![a]);
    assert(seq![a].drop_last() =~= Seq::<RegisterDefinition>::empty());
    assert(catalog_of(seq![a]) == catalog_of(Seq::<RegisterDefinition>::empty()).insert(
        a.name@,
        register_of(a),
    ));
    assert(catalog_of(s) == catalog_of(seq![a]).insert(b.name@, register_of(b)));
    assert(catalog_of(s) =~= Map::<Seq<char>, Register>::empty().insert(b.name@, register_of(b)));
}

} // verus!
