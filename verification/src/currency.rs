//! Currencies and where they live: the conversion between a currency
//! identifier and the location of its reserve, as seen from this chain.

use vstd::prelude::*;
use crate::bytes::bytes_equal;

verus! {

/// The currencies that the chain knows.
#[derive(Clone, Copy, Debug, PartialEq, Eq)]
pub enum CurrencyId {
    /// The chain's own currency.
    PONT,
    /// The currency of the relay chain.
    KSM,
}

/// One step of a path between chains.
#[derive(Clone, Debug, PartialEq, Eq)]
pub enum Junction {
    /// The parachain with this number.
    Parachain(u32),
    /// The item under this key.
    GeneralKey(Vec<u8>),
}

/// The steps of a path, after it has gone up.
#[derive(Clone, Debug, PartialEq, Eq)]
pub enum Junctions {
    Here,
    X1(Junction),
    X2(Junction, Junction),
}

/// A path between chains: so many levels up, then the steps down.
#[derive(Clone, Debug, PartialEq, Eq)]
pub struct MultiLocation {
    pub parents: u8,
    pub interior: Junctions,
}

/// A step as a mathematical value.
pub enum JunctionModel {
    Parachain(u32),
    GeneralKey(Seq<u8>),
}

/// The steps of a path as a mathematical value.
pub enum JunctionsModel {
    Here,
    X1(JunctionModel),
    X2(JunctionModel, JunctionModel),
}

/// A path as a mathematical value.
pub struct LocationModel {
    pub parents: u8,
    pub interior: JunctionsModel,
}

impl View for Junction {
    type V = JunctionModel;

    open spec fn view(&self) -> JunctionModel {
        match self {
            Junction::Parachain(id) => JunctionModel::Parachain(*id),
            Junction::GeneralKey(key) => JunctionModel::GeneralKey(key@),
        }
    }
}

impl View for Junctions {
    type V = JunctionsModel;

    open spec fn view(&self) -> JunctionsModel {
        match self {
            Junctions::Here => JunctionsModel::Here,
            Junctions::X1(a) => JunctionsModel::X1(a@),
            Junctions::X2(a, b) => JunctionsModel::X2(a@, b@),
        }
    }
}

impl View for MultiLocation {
    type V = LocationModel;

    open spec fn view(&self) -> LocationModel {
        LocationModel { parents: self.parents, interior: self.interior@ }
    }
}

/// The symbol of a currency: its name in ASCII capitals.
pub open spec fn symbol_of(id: CurrencyId) -> Seq<u8> {
    match id {
        CurrencyId::PONT => seq![80u8, 79u8, 78u8, 84u8],
        CurrencyId::KSM => seq![75u8, 83u8, 77u8],
    }
}

/// The relay chain: one level up.
pub open spec fn parent_location() -> LocationModel {
    LocationModel { parents: 1, interior: JunctionsModel::Here }
}

/// Where a currency lives, seen from the parachain `parachain`: the relay
/// chain's currency one level up; the chain's own currency under its
/// symbol on this parachain.
pub open spec fn location_of(id: CurrencyId, parachain: u32) -> LocationModel {
    match id {
        CurrencyId::KSM => parent_location(),
        CurrencyId::PONT => LocationModel {
            parents: 1,
            interior: JunctionsModel::X2(
                JunctionModel::Parachain(parachain),
                JunctionModel::GeneralKey(symbol_of(CurrencyId::PONT)),
            ),
        },
    }
}

/// The currency that lives at a location, if one does.
pub open spec fn currency_at(location: LocationModel, parachain: u32) -> Option<CurrencyId> {
    if location == location_of(CurrencyId::KSM, parachain) {
        Some(CurrencyId::KSM)
    } else if location == location_of(CurrencyId::PONT, parachain) {
        Some(CurrencyId::PONT)
    } else {
        None
    }
}

impl CurrencyId {
    /// The symbol of the currency.
    pub fn symbol(&self) -> (res: Vec<u8>)
        ensures
            res@ == symbol_of(*self),
    {
        let mut out: Vec<u8> = Vec::new();
        match self {
            CurrencyId::PONT => {
                out.push(80);
                out.push(79);
                out.push(78);
                out.push(84);
            },
            CurrencyId::KSM => {
                out.push(75);
                out.push(83);
                out.push(77);
            },
        }
        assert(out@ =~= symbol_of(*self));
        out
    }
}

impl MultiLocation {
    /// The relay chain.
    pub fn parent() -> (res: MultiLocation)
        ensures
            res@ == parent_location(),
    {
        MultiLocation { parents: 1, interior: Junctions::Here }
    }
}

/// The converter between currencies and their locations.
pub struct CurrencyIdConvert;

impl CurrencyIdConvert {
    /// The location of a currency, seen from the parachain `parachain`.
    pub fn convert(id: CurrencyId, parachain: u32) -> (res: Option<MultiLocation>)
        ensures
            res matches Some(location) && location@ == location_of(id, parachain),
    {
        match id {
            CurrencyId::KSM => Some(MultiLocation::parent()),
            CurrencyId::PONT => Some(
                MultiLocation {
                    parents: 1,
                    interior: Junctions::X2(
                        Junction::Parachain(parachain),
                        Junction::GeneralKey(CurrencyId::PONT.symbol()),
                    ),
                },
            ),
        }
    }

    /// The currency that lives at a location, seen from the parachain
    /// `parachain`.
    pub fn convert_back(location: &MultiLocation, parachain: u32) -> (res: Option<CurrencyId>)
        ensures
            res == currency_at(location@, parachain),
    {
        if location.parents != 1 {
            return None;
        }
        match &location.interior {
            Junctions::Here => Some(CurrencyId::KSM),
            Junctions::X2(Junction::Parachain(id), Junction::GeneralKey(key)) => {
                let symbol: Vec<u8> = CurrencyId::PONT.symbol();
                if *id == parachain && bytes_equal(key.as_slice(), symbol.as_slice()) {
                    Some(CurrencyId::PONT)
                } else {
                    None
                }
            },
            _ => None,
        }
    }
}

/// Every currency is found again at its location.
pub proof fn law_currency_round_trip(id: CurrencyId, parachain: u32)
    ensures
        currency_at(location_of(id, parachain), parachain) == Some(id),
{
}

} // verus!
