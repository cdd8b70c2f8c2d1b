use vstd::prelude::*;
use vstd::string::*;

use std::collections::BTreeMap;

use crate::error::Error;

verus! {

/// A path of an artifact as recorded in a link.
pub type VirtualTargetPath = String;

/// The digests of one artifact, by algorithm name.
pub type TargetDescription = BTreeMap<String, String>;

/// The type tag that a link document carries.
pub open spec fn link_tag() -> Seq<char> {
    seq!['l', 'i', 'n', 'k']
}

/// What a build step recorded: its name, the artifacts it used and made,
/// its environment and its by-products.
#[derive(Debug, Clone, PartialEq, Eq)]
pub struct LinkMetadata {
    pub name: String,
    pub materials: BTreeMap<VirtualTargetPath, TargetDescription>,
    pub products: BTreeMap<VirtualTargetPath, TargetDescription>,
    pub env: BTreeMap<String, String>,
    pub byproducts: BTreeMap<String, String>,
}

impl LinkMetadata {
    pub fn new(
        name: String,
        materials: BTreeMap<VirtualTargetPath, TargetDescription>,
        products: BTreeMap<VirtualTargetPath, TargetDescription>,
        env: BTreeMap<String, String>,
        byproducts: BTreeMap<String, String>,
    ) -> (r: LinkMetadata)
        ensures
            r.name@ == name@,
            r.materials@ == materials@,
            r.products@ == products@,
            r.env@ == env@,
            r.byproducts@ == byproducts@,
    {
        LinkMetadata { name, materials, products, env, byproducts }
    }
}

/// The wire form of a link document: its fields and the type tag `"link"`.
#[derive(Debug, Clone, PartialEq, Eq)]
pub struct Link {
    pub typ: String,
    pub name: String,
    pub materials: BTreeMap<VirtualTargetPath, TargetDescription>,
    pub products: BTreeMap<VirtualTargetPath, TargetDescription>,
    pub env: BTreeMap<String, String>,
    pub byproducts: BTreeMap<String, String>,
}

fn is_link_tag(s: &str) -> (r: bool)
    ensures
        r == (s@ == link_tag()),
{
    if s.unicode_len() != 4 {
        return false;
    }
    let r = s.get_char(0) == 'l' && s.get_char(1) == 'i' && s.get_char(2) == 'n' && s.get_char(3) == 'k';
    proof {
        if r {
            assert(s@ =~= link_tag());
        }
    }
    r
}

impl Link {
    pub open spec fn spec_typ(&self) -> Seq<char> {
        self.typ@
    }

    /// Whether this wire form holds exactly the fields of `meta`.
    pub open spec fn holds(&self, meta: LinkMetadata) -> bool {
        &&& self.name@ == meta.name@
        &&& self.materials@ == meta.materials@
        &&& self.products@ == meta.products@
        &&& self.env@ == meta.env@
        &&& self.byproducts@ == meta.byproducts@
    }

    /// Builds a link from its type tag and fields.
    pub fn new(
        typ: String,
        name: String,
        materials: BTreeMap<VirtualTargetPath, TargetDescription>,
        products: BTreeMap<VirtualTargetPath, TargetDescription>,
        env: BTreeMap<String, String>,
        byproducts: BTreeMap<String, String>,
    ) -> (r: Link)
        ensures
            r.spec_typ() == typ@,
            r.holds(LinkMetadata { name, materials, products, env, byproducts }),
    {
        Link { typ, name, materials, products, env, byproducts }
    }

    /// The wire form of `meta`.
    pub fn from(meta: &LinkMetadata) -> (r: Result<Link, Error>)
        ensures
            r is Ok,
            r->Ok_0.spec_typ() == link_tag(),
            r->Ok_0.holds(*meta),
    {
        let typ = String::from_str("link");
        proof {
            reveal_strlit("link");
            assert(typ@ =~= link_tag());
        }
        Ok(
            Link {
                typ,
                name: meta.name.clone(),
                materials: meta.materials.clone(),
                products: meta.products.clone(),
                env: meta.env.clone(),
                byproducts: meta.byproducts.clone(),
            },
        )
    }

    /// The link metadata this wire form holds; fails unless the type tag is `"link"`.
    pub fn try_into(self) -> (r: Result<LinkMetadata, Error>)
        ensures
            r is Ok <==> self.spec_typ() == link_tag(),
            r is Ok ==> self.holds(r->Ok_0),
            r is Err ==> r->Err_0 is Encoding,
            r is Err ==> exists|p: Seq<char>| r->Err_0->Encoding_0@ == p + self.spec_typ(),
    {
        if !is_link_tag(self.typ.as_str()) {
            let prefix = String::from_str("Attempted to decode link metadata labeled as ");
            let ghost p = prefix@;
            let message = prefix.concat(self.typ.as_str());
            assert(message@ == p + self.spec_typ());
            return Err(Error::Encoding(message));
        }
        Ok(LinkMetadata::new(self.name, self.materials, self.products, self.env, self.byproducts))
    }
}

} // verus!

