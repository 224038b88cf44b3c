use sp_mvm_rpc::currency::Junction::{GeneralKey, Parachain};
use sp_mvm_rpc::currency::Junctions::X2;
use sp_mvm_rpc::currency::{CurrencyId, CurrencyIdConvert, MultiLocation};

const PARACHAIN: u32 = 2000;

#[test]
fn test_currency_id_convertations() {
    assert_eq!(
        CurrencyIdConvert::convert(CurrencyId::KSM, PARACHAIN),
        Some(MultiLocation::parent())
    );

    assert_eq!(
        CurrencyIdConvert::convert(CurrencyId::PONT, PARACHAIN),
        Some(MultiLocation {
            parents: 1,
            interior: X2(Parachain(PARACHAIN), GeneralKey(CurrencyId::PONT.symbol()))
        })
    )
}

#[test]
fn currency_symbols() {
    assert_eq!(CurrencyId::PONT.symbol(), b"PONT".to_vec());
    assert_eq!(CurrencyId::KSM.symbol(), b"KSM".to_vec());
}

#[test]
fn locations_convert_back() {
    for id in [CurrencyId::KSM, CurrencyId::PONT] {
        let location = CurrencyIdConvert::convert(id, PARACHAIN).unwrap();
        assert_eq!(CurrencyIdConvert::convert_back(&location, PARACHAIN), Some(id));
    }
}

#[test]
fn foreign_locations_hold_no_currency() {
    let other = CurrencyIdConvert::convert(CurrencyId::PONT, PARACHAIN + 1).unwrap();
    assert_eq!(CurrencyIdConvert::convert_back(&other, PARACHAIN), None);
    let deeper = MultiLocation { parents: 2, interior: sp_mvm_rpc::currency::Junctions::Here };
    assert_eq!(CurrencyIdConvert::convert_back(&deeper, PARACHAIN), None);
    let wrong_key = MultiLocation {
        parents: 1,
        interior: X2(Parachain(PARACHAIN), GeneralKey(b"KSM".to_vec())),
    };
    assert_eq!(CurrencyIdConvert::convert_back(&wrong_key, PARACHAIN), None);
}
