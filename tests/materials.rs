use graphics_lib::import::ImportError;
use graphics_lib::material::{parse_illumination, parse_mtl, IlluminationModel, MtlKey};

const LIBRARY: &str = "# two materials\n\
newmtl Red\n\
Ka 1.0 1.0 1.0\n\
Kd 0.8 0.1 0.1\n\
Ns 250.0\n\
illum 2\n\
\n\
newmtl Glass\n\
Kd 0.9 0.9 0.9\n\
Ni 1.5\n\
d 0.2\n\
Tr 0.8\n\
Tf 1 1 1\n\
Ke 0 0 0\n\
Ks 0.5 0.5 0.5\n\
map_Kd glass.png\n";

#[test]
fn materials_are_read_in_order() {
    let mats = parse_mtl(LIBRARY.as_bytes()).unwrap();
    assert_eq!(mats.len(), 2);
    assert_eq!(mats[0].name, b"Red".to_vec());
    assert_eq!(mats[0].settings.len(), 4);
    assert_eq!(mats[0].settings[0].key, MtlKey::Ambient);
    assert_eq!(mats[0].settings[1].key, MtlKey::Diffuse);
    assert_eq!(mats[0].settings[1].args, vec![b"0.8".to_vec(), b"0.1".to_vec(), b"0.1".to_vec()]);
    assert_eq!(mats[0].settings[1].line, 4);
    assert_eq!(mats[0].settings[2].key, MtlKey::SpecularExponent);
    assert_eq!(mats[0].settings[2].args, vec![b"250.0".to_vec()]);
    assert_eq!(mats[0].settings[3].key, MtlKey::Illumination(Some(IlluminationModel::HighOn)));
    assert!(mats[0].settings[3].args.is_empty());
    assert_eq!(mats[1].name, b"Glass".to_vec());
    let keys: Vec<MtlKey> = mats[1].settings.iter().map(|s| s.key).collect();
    assert_eq!(
        keys,
        vec![
            MtlKey::Diffuse,
            MtlKey::OpticalDensity,
            MtlKey::Dissolve,
            MtlKey::Transparency,
            MtlKey::Filter,
            MtlKey::Emission,
            MtlKey::Specular,
        ]
    );
}

#[test]
fn empty_library_has_no_material() {
    assert!(parse_mtl(b"").unwrap().is_empty());
    assert!(parse_mtl(b"# nothing\n\n").unwrap().is_empty());
}

#[test]
fn statement_before_newmtl_is_malformed() {
    assert!(matches!(parse_mtl(b"Kd 1 1 1\n"), Err(ImportError::Malformed(1))));
    assert!(matches!(parse_mtl(b"\nillum 2\n"), Err(ImportError::Malformed(2))));
}

#[test]
fn missing_arguments_are_malformed() {
    assert!(matches!(parse_mtl(b"newmtl A\nKd 1 1\n"), Err(ImportError::Malformed(2))));
    assert!(matches!(parse_mtl(b"newmtl\n"), Err(ImportError::Malformed(1))));
    assert!(matches!(parse_mtl(b"newmtl A\nNs\n"), Err(ImportError::Malformed(2))));
}

#[test]
fn illumination_codes_map_to_models() {
    let all = [
        IlluminationModel::COnAmOff,
        IlluminationModel::COnAmOn,
        IlluminationModel::HighOn,
        IlluminationModel::ReOnRTOn,
        IlluminationModel::TransGlassOnReRTOn,
        IlluminationModel::ReFresOnRTOn,
        IlluminationModel::TransRefracOnReFresOffRtOn,
        IlluminationModel::TransRefracOnReFresOnRtOn,
        IlluminationModel::ReOnRTOff,
        IlluminationModel::TransGlassOnReRTOff,
        IlluminationModel::InvisShadow,
    ];
    for (code, model) in all.iter().enumerate() {
        assert_eq!(IlluminationModel::from_code(code), Some(*model));
    }
    assert_eq!(IlluminationModel::from_code(11), None);
}

#[test]
fn illumination_argument_is_a_signed_code() {
    assert_eq!(parse_illumination(b"7"), Some(Some(IlluminationModel::TransRefracOnReFresOnRtOn)));
    assert_eq!(parse_illumination(b"+1"), Some(Some(IlluminationModel::COnAmOn)));
    assert_eq!(parse_illumination(b"-0"), Some(Some(IlluminationModel::COnAmOff)));
    assert_eq!(parse_illumination(b"-3"), Some(None));
    assert_eq!(parse_illumination(b"12"), Some(None));
    assert_eq!(parse_illumination(b"2147483647"), Some(None));
    assert_eq!(parse_illumination(b"2147483648"), None);
    assert_eq!(parse_illumination(b"-2147483648"), Some(None));
    assert_eq!(parse_illumination(b"-2147483649"), None);
    assert_eq!(parse_illumination(b"two"), None);
    assert_eq!(parse_illumination(b"-+2"), None);
}

#[test]
fn bad_illumination_is_malformed() {
    assert!(matches!(parse_mtl(b"newmtl A\nillum x\n"), Err(ImportError::Malformed(2))));
    let mats = parse_mtl(b"newmtl A\nillum 40\n").unwrap();
    assert_eq!(mats[0].settings[0].key, MtlKey::Illumination(None));
}

#[test]
fn repeated_names_are_kept_in_order() {
    let mats = parse_mtl(b"newmtl A\nKd 1 0 0\nnewmtl A\nKd 0 1 0\n").unwrap();
    assert_eq!(mats.len(), 2);
    assert_eq!(mats[1].settings[0].args[1], b"1".to_vec());
}
