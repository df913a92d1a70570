use tipitaka_xml_parser::nikaya::NikayaStructure;
use tipitaka_xml_parser::types::GroupType;

#[test]
fn test_normalize_name_digha_yo() {
    assert_eq!(
        NikayaStructure::normalize_name("Dīghanikāyo"),
        Some("digha".to_string())
    );
}

#[test]
fn test_normalize_name_digha_ye() {
    assert_eq!(
        NikayaStructure::normalize_name("Dīghanikāye"),
        Some("digha".to_string())
    );
}

#[test]
fn test_normalize_name_majjhima_yo() {
    assert_eq!(
        NikayaStructure::normalize_name("Majjhimanikāyo"),
        Some("majjhima".to_string())
    );
}

#[test]
fn test_normalize_name_majjhima_ye() {
    assert_eq!(
        NikayaStructure::normalize_name("Majjhimanikāye"),
        Some("majjhima".to_string())
    );
}

#[test]
fn test_normalize_name_samyutta_yo() {
    assert_eq!(
        NikayaStructure::normalize_name("Saṃyuttanikāyo"),
        Some("samyutta".to_string())
    );
}

#[test]
fn test_normalize_name_samyutta_ye() {
    assert_eq!(
        NikayaStructure::normalize_name("Saṃyuttanikāye"),
        Some("samyutta".to_string())
    );
}

#[test]
fn test_normalize_name_anguttara() {
    assert_eq!(
        NikayaStructure::normalize_name("Aṅguttaranikāyo"),
        Some("anguttara".to_string())
    );
}

#[test]
fn test_normalize_name_khuddaka() {
    assert_eq!(
        NikayaStructure::normalize_name("Khuddakanikāyo"),
        Some("khuddaka".to_string())
    );
}

#[test]
fn test_normalize_name_unknown() {
    assert_eq!(NikayaStructure::normalize_name("Unknown"), None);
}

#[test]
fn test_from_nikaya_name_digha() {
    let structure = NikayaStructure::from_nikaya_name("digha").unwrap();
    assert_eq!(structure.nikaya, "digha");
    assert_eq!(structure.levels.len(), 3);
    assert!(matches!(structure.levels[0], GroupType::Nikaya));
    assert!(matches!(structure.levels[1], GroupType::Book));
    assert!(matches!(structure.levels[2], GroupType::Sutta));
}

#[test]
fn test_from_nikaya_name_majjhima() {
    let structure = NikayaStructure::from_nikaya_name("majjhima").unwrap();
    assert_eq!(structure.nikaya, "majjhima");
    assert_eq!(structure.levels.len(), 4);
    assert!(matches!(structure.levels[0], GroupType::Nikaya));
    assert!(matches!(structure.levels[1], GroupType::Book));
    assert!(matches!(structure.levels[2], GroupType::Vagga));
    assert!(matches!(structure.levels[3], GroupType::Sutta));
}

#[test]
fn test_from_nikaya_name_samyutta() {
    let structure = NikayaStructure::from_nikaya_name("samyutta").unwrap();
    assert_eq!(structure.nikaya, "samyutta");
    assert_eq!(structure.levels.len(), 5);
    assert!(matches!(structure.levels[0], GroupType::Nikaya));
    assert!(matches!(structure.levels[1], GroupType::Book));
    assert!(matches!(structure.levels[2], GroupType::Samyutta));
    assert!(matches!(structure.levels[3], GroupType::Vagga));
    assert!(matches!(structure.levels[4], GroupType::Sutta));
}

#[test]
fn test_from_nikaya_name_unknown() {
    assert!(NikayaStructure::from_nikaya_name("unknown").is_none());
}
