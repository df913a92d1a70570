use tipitaka_xml_parser::tika::parse_into_fragments;
use tipitaka_xml_parser::nikaya::detect_nikaya_structure;
use tipitaka_xml_parser::types::{FragmentType, GroupType, ParserOverrides};
/// Helper to create minimal DN XML for testing
fn tika_dn_sample_xml() -> String {
    r#"<?xml version="1.0" encoding="UTF-8"?>
<TEI.2>
<teiHeader></teiHeader>
<text>
<body>
<p rend="nikaya">Dīghanikāyo</p>
<div id="dn1" type="book">
<head rend="book">Sīlakkhandhavaggapāḷi</head>
<div id="dn1_1" type="sutta">
<head rend="chapter">1. Brahmajālasutta</head>
<p rend="subhead">Paribbājakakathā</p>
<p rend="bodytext" n="1">Evaṃ me sutaṃ – ekaṃ samayaṃ bhagavā antarā ca rājagahaṃ antarā ca nālandaṃ.</p>
<p rend="bodytext" n="2">Atha kho bhagavā ambalatthikāyaṃ rājāgārake ekarattivāsaṃ upagacchi.</p>
</div>
</div>
</body>
</text>
</TEI.2>"#.to_string()
}

/// Helper to create minimal MN XML for testing
fn tika_mn_sample_xml() -> String {
    r#"<?xml version="1.0" encoding="UTF-8"?>
<TEI.2>
<teiHeader></teiHeader>
<text>
<body>
<p rend="nikaya">Majjhimanikāyo</p>
<div id="mn1" type="book">
<head rend="book">Mūlapaṇṇāsapāḷi</head>
<div id="mn1_1" type="vagga">
<head rend="chapter">Mūlapariyāyavaggo</head>
<div id="mn1_1_1" type="sutta">
<p rend="subhead">1. Mūlapariyāyasutta</p>
<p rend="bodytext" n="1">Evaṃ me sutaṃ – ekaṃ samayaṃ bhagavā ukkaṭṭhāyaṃ viharati.</p>
<p rend="bodytext" n="2">Tatra kho bhagavā bhikkhū āmantesi – "bhikkhavo"ti.</p>
</div>
</div>
</div>
</body>
</text>
</TEI.2>"#.to_string()
}

#[test]
fn samyutta_nikaya_tika_test_parse_dn_sample_basic() {
    let xml = tika_dn_sample_xml();
    let structure = detect_nikaya_structure(&xml).expect("Should detect DN structure");

    assert_eq!(structure.nikaya, "digha");

    let fragments = parse_into_fragments(&xml, &structure, "test.xml", &ParserOverrides::default(), false).expect("Should parse fragments");

    // Should have at least one fragment
    assert!(!fragments.is_empty(), "Should have at least one fragment");
}

#[test]
fn samyutta_nikaya_tika_test_parse_dn_fragment_count() {
    let xml = tika_dn_sample_xml();
    let structure = detect_nikaya_structure(&xml).unwrap();
    let fragments = parse_into_fragments(&xml, &structure, "test.xml", &ParserOverrides::default(), false).unwrap();

    // Count sutta fragments
    let sutta_fragments: Vec<_> = fragments.iter()
        .filter(|f| matches!(f.frag_type, FragmentType::Sutta))
        .collect();

    // Should have one sutta fragment
    assert_eq!(sutta_fragments.len(), 1, "Should have exactly one sutta fragment");
}

#[test]
fn samyutta_nikaya_tika_test_parse_dn_line_tracking() {
    let xml = tika_dn_sample_xml();
    let structure = detect_nikaya_structure(&xml).unwrap();
    let fragments = parse_into_fragments(&xml, &structure, "test.xml", &ParserOverrides::default(), false).unwrap();

    for fragment in &fragments {
        // Line numbers should be valid (start > 0, end >= start)
        assert!(fragment.start_line > 0, "Start line should be > 0");
        assert!(fragment.end_line >= fragment.start_line,
                "End line should be >= start line");
    }
}

#[test]
fn samyutta_nikaya_tika_test_parse_mn_sample_basic() {
    let xml = tika_mn_sample_xml();
    let structure = detect_nikaya_structure(&xml).expect("Should detect MN structure");

    assert_eq!(structure.nikaya, "majjhima");

    let fragments = parse_into_fragments(&xml, &structure, "test.xml", &ParserOverrides::default(), false).expect("Should parse fragments");

    assert!(!fragments.is_empty(), "Should have at least one fragment");
}

#[test]
fn samyutta_nikaya_tika_test_fragment_content_not_empty() {
    let xml = tika_dn_sample_xml();
    let structure = detect_nikaya_structure(&xml).unwrap();
    let fragments = parse_into_fragments(&xml, &structure, "test.xml", &ParserOverrides::default(), false).unwrap();

    for fragment in &fragments {
        // Each fragment should have non-empty content
        assert!(!fragment.content_xml.trim().is_empty(),
                "Fragment content should not be empty");
    }
}

#[test]
fn samyutta_nikaya_tika_test_character_position_tracking() {
    let xml = tika_dn_sample_xml();
    let structure = detect_nikaya_structure(&xml).unwrap();
    let fragments = parse_into_fragments(&xml, &structure, "test.xml", &ParserOverrides::default(), false).unwrap();

    for fragment in &fragments {
        // Character positions should be valid
        assert!(fragment.start_char <= fragment.end_char || fragment.start_line < fragment.end_line,
                "Character positions should be valid: start_line={}, start_char={}, end_line={}, end_char={}",
                fragment.start_line, fragment.start_char, fragment.end_line, fragment.end_char);

        // If on same line, start_char should be < end_char
        if fragment.start_line == fragment.end_line {
            assert!(fragment.start_char < fragment.end_char,
                    "On same line, start_char ({}) should be < end_char ({})",
                    fragment.start_char, fragment.end_char);
        }
    }
}

#[test]
fn samyutta_nikaya_tika_test_same_line_multiple_elements() {
    // Create XML with multiple short elements on the same line
    let xml = r#"<?xml version="1.0"?>
<text><body><p rend="nikaya">Dīghanikāyo</p><div type="book"><head rend="book">Book1</head><div type="sutta"><head rend="chapter">Sutta1</head><p n="1">Text1</p></div></div></body></text>"#;

    let structure = detect_nikaya_structure(xml).unwrap();
    let fragments = parse_into_fragments(xml, &structure, "test.xml", &ParserOverrides::default(), false).unwrap();

    // Check that we can distinguish elements on the same line
    // by their character positions
    for i in 0..fragments.len() {
        for j in (i+1)..fragments.len() {
            let frag_i = &fragments[i];
            let frag_j = &fragments[j];

            // If both fragments are on the same line
            if frag_i.start_line == frag_j.start_line &&
               frag_i.end_line == frag_j.end_line &&
               frag_i.start_line == frag_i.end_line {
                // They should have non-overlapping character ranges
                let no_overlap = frag_i.end_char <= frag_j.start_char ||
                                frag_j.end_char <= frag_i.start_char;
                assert!(no_overlap,
                        "Fragments on same line should not overlap: \
                         frag[{}]: {}:{}-{}:{}, frag[{}]: {}:{}-{}:{}",
                        i, frag_i.start_line, frag_i.start_char,
                        frag_i.end_line, frag_i.end_char,
                        j, frag_j.start_line, frag_j.start_char,
                        frag_j.end_line, frag_j.end_char);
            }
        }
    }
}

#[test]
fn samyutta_nikaya_tika_test_cst_fields_dn() {
    // Test CST field derivation for DN
    let xml = r#"<?xml version="1.0" encoding="UTF-8"?>
<TEI.2>
<text>
<body>
<p rend="nikaya">Dīghanikāyo</p>
<div id="dn1" n="dn1" type="book">
<head rend="book">Sīlakkhandhavaggapāḷi</head>
<div id="dn1_1" n="dn1_1" type="sutta">
<head rend="chapter">1. Brahmajālasuttaṃ</head>
<p rend="subhead">Paribbājakakathā</p>
<p rend="bodytext" n="1">Evaṃ me sutaṃ</p>
</div>
</div>
</body>
</text>
</TEI.2>"#;

    let structure = detect_nikaya_structure(xml).unwrap();
    let fragments = parse_into_fragments(xml, &structure, "s0101m.mul.xml", &ParserOverrides::default(), false).unwrap();

    // Find the sutta fragment
    let sutta_frag = fragments.iter()
        .find(|f| matches!(f.frag_type, FragmentType::Sutta))
        .expect("Should have a sutta fragment");

    // Check CST fields
    assert_eq!(sutta_frag.cst_file.as_str(), "s0101m.mul.xml");
    assert_eq!(sutta_frag.cst_code.as_deref(), Some("dn1.1"));
    assert_eq!(sutta_frag.cst_vagga.as_deref(), None); // DN doesn't have vaggas
    assert_eq!(sutta_frag.cst_sutta.as_deref(), Some("1. Brahmajālasuttaṃ"));
    assert_eq!(sutta_frag.cst_paranum.as_deref(), Some("1"));
}

#[test]
fn samyutta_nikaya_tika_test_cst_fields_mn() {
    // Test CST field derivation for MN
    let xml = r#"<?xml version="1.0" encoding="UTF-8"?>
<TEI.2>
<text>
<body>
<p rend="nikaya">Majjhimanikāyo</p>
<div id="mn1" type="book">
<head rend="book">Mūlapaṇṇāsapāḷi</head>
<div id="mn1_5" n="mn1_5" type="vagga">
<head rend="chapter">5. Cūḷayamakavaggo</head>
<p rend="subhead">1. Sāleyyakasuttaṃ</p>
<p rend="bodytext" n="439">Evaṃ me sutaṃ</p>
</div>
</div>
</body>
</text>
</TEI.2>"#;

    let structure = detect_nikaya_structure(xml).unwrap();
    let fragments = parse_into_fragments(xml, &structure, "s0201m.mul.xml", &ParserOverrides::default(), false).unwrap();

    // Find the sutta fragment
    let sutta_frag = fragments.iter()
        .find(|f| matches!(f.frag_type, FragmentType::Sutta))
        .expect("Should have a sutta fragment");

    // Check CST fields
    assert_eq!(sutta_frag.cst_file.as_str(), "s0201m.mul.xml");
    assert_eq!(sutta_frag.cst_code.as_deref(), Some("mn1.5.1"));
    assert_eq!(sutta_frag.cst_vagga.as_deref(), Some("5. Cūḷayamakavaggo"));
    assert_eq!(sutta_frag.cst_sutta.as_deref(), Some("1. Sāleyyakasuttaṃ"));
    assert_eq!(sutta_frag.cst_paranum.as_deref(), Some("439"));
}

#[test]
fn samyutta_nikaya_tika_test_cst_fields_sn() {
    // Test CST field derivation for SN
    let xml = r#"<?xml version="1.0" encoding="UTF-8"?>
<TEI.2>
<text>
<body>
<p rend="nikaya">Saṃyuttanikāyo</p>
<div id="sn1" n="sn1" type="book">
<head rend="book">Sagāthāvaggo</head>
<div id="sn1_1" n="sn1_1" type="samyutta">
<head rend="chapter">1. Devatāsaṃyuttaṃ</head>
<p rend="title">1. Naḷavaggo</p>
<p rend="subhead">1. Oghataraṇasuttaṃ</p>
<p rend="bodytext" n="1">Evaṃ me sutaṃ – ekaṃ samayaṃ bhagavā sāvatthiyaṃ viharati</p>
</div>
</div>
</body>
</text>
</TEI.2>"#;

    let structure = detect_nikaya_structure(xml).unwrap();
    let fragments = parse_into_fragments(xml, &structure, "s0301m.mul.xml", &ParserOverrides::default(), false).unwrap();

    // Find the sutta fragment
    let sutta_frag = fragments.iter()
        .find(|f| matches!(f.frag_type, FragmentType::Sutta))
        .expect("Should have a sutta fragment");

    // Check CST fields
    assert_eq!(sutta_frag.cst_file.as_str(), "s0301m.mul.xml");
    assert_eq!(sutta_frag.cst_code.as_deref(), Some("sn1.1.1.1"));
    assert_eq!(sutta_frag.cst_vagga.as_deref(), Some("1. Naḷavaggo"));
    assert_eq!(sutta_frag.cst_sutta.as_deref(), Some("1. Oghataraṇasuttaṃ"));
    assert_eq!(sutta_frag.cst_paranum.as_deref(), Some("1"));
}

#[test]
fn samyutta_nikaya_tika_test_cst_fields_sn_vagga_with_11_suttas() {
    // Test that vaggas with more than 10 suttas are handled correctly
    // This is based on real XML from s0301m.mul.xml, vagga 8 (Chetvāvaggo) which has 11 suttas
    let xml = r#"<?xml version="1.0" encoding="UTF-8"?>
<TEI.2>
<text>
<body>
<p rend="nikaya">Saṃyuttanikāyo</p>
<div id="sn1" n="sn1" type="book">
<head rend="book">Sagāthāvaggo</head>
<div id="sn1_1" n="sn1_1" type="samyutta">
<head rend="chapter">1. Devatāsaṃyuttaṃ</head>
<p rend="title">8. Chetvāvaggo</p>
<p rend="subhead">10. Pajjotasuttaṃ</p>
<p rend="hangnum" n="80"><hi rend="paranum">80</hi></p>
<p rend="gatha1">''Kiṃsu lokasmi pajjoto, kiṃsu lokasmi jāgaro;</p>
<p rend="gathalast">Gāvo kamme sajīvānaṃ, sītassa iriyāpatho.</p>
<p rend="subhead">11. Araṇasuttaṃ</p>
<p rend="hangnum" n="81"><hi rend="paranum">81</hi></p>
<p rend="gatha1">''Kesūdha araṇā loke, kesaṃ vusitaṃ na nassati;</p>
<p rend="gathalast">Samaṇīdha jātihīnaṃ, abhivādenti khattiyā''ti.</p>
<p rend="centre">Chetvāvaggo aṭṭhamo.</p>
<p rend="bodytext">Tassuddānaṃ –</p>
<p rend="gatha1">Chetvā rathañca cittañca, vuṭṭhi bhītā najīrati;</p>
<p rend="gathalast">Issaraṃ kāmaṃ pātheyyaṃ, pajjoto araṇena cāti.</p>
<trailer rend="centre">Devatāsaṃyuttaṃ samattaṃ.</trailer>
</div>
<div id="sn1_2" n="sn1_2" type="samyutta">
<head rend="chapter">2. Devaputtasaṃyuttaṃ</head>
<p rend="title">1. Paṭhamavaggo</p>
<p rend="subhead">1. Paṭhamakassapasuttaṃ</p>
<p rend="bodytext" n="82">Evaṃ me sutaṃ</p>
</div>
</div>
</body>
</text>
</TEI.2>"#;

    let structure = detect_nikaya_structure(xml).unwrap();
    let fragments = parse_into_fragments(xml, &structure, "s0301m.mul.xml", &ParserOverrides::default(), false).unwrap();

    let sutta_fragments: Vec<_> = fragments.iter()
        .filter(|f| matches!(f.frag_type, FragmentType::Sutta))
        .collect();

    // Find sutta 10
    let sutta10 = sutta_fragments.iter()
        .find(|f| f.cst_sutta.as_ref().map(|s| s.contains("Pajjotasuttaṃ")).unwrap_or(false))
        .expect("Should find sutta 10");

    assert_eq!(sutta10.cst_code.as_deref(), Some("sn1.1.8.10"));
    assert_eq!(sutta10.cst_vagga.as_deref(), Some("8. Chetvāvaggo"));

    // Find sutta 11 - this is the critical test case
    let sutta11 = sutta_fragments.iter()
        .find(|f| f.cst_sutta.as_ref().map(|s| s.contains("Araṇasuttaṃ")).unwrap_or(false))
        .expect("Should find sutta 11");

    // Sutta 11 should have correct code even though it's the 11th sutta in a vagga
    // and is followed by a new samyutta div
    assert_eq!(sutta11.cst_code.as_deref(), Some("sn1.1.8.11"));
    assert_eq!(sutta11.cst_vagga.as_deref(), Some("8. Chetvāvaggo"));
    assert_eq!(sutta11.cst_sutta.as_deref(), Some("11. Araṇasuttaṃ"));

    // Verify that the samyutta level is still sn1_1, not sn1_2
    let samyutta_level = sutta11.group_levels.iter()
        .find(|l| matches!(l.group_type, GroupType::Samyutta));
    assert!(samyutta_level.is_some());
    assert_eq!(samyutta_level.unwrap().id.as_deref(), Some("sn1_1"));
}

#[test]
fn samyutta_nikaya_tika_test_cst_fields_an() {
    // Test CST field derivation for AN (mul file with div IDs)
    let xml = r#"<?xml version="1.0" encoding="UTF-8"?>
<TEI.2>
<text>
<body>
<p rend="nikaya">Aṅguttaranikāyo</p>
<div id="an3" n="an3" type="book">
<head rend="book">Tikanipātapāḷi</head>
<div id="an3_1" n="an3_1" type="pannasaka">
<head rend="title">1. Paṭhamapaṇṇāsakaṃ</head>
<div id="an3_1_1" n="an3_1_1" type="vagga">
<head rend="chapter">1. Bālavaggo</head>
<p rend="subhead">1. Bhayasuttaṃ</p>
<p rend="bodytext" n="1">Evaṃ me sutaṃ – ekaṃ samayaṃ bhagavā sāvatthiyaṃ viharati</p>
</div>
</div>
</div>
</body>
</text>
</TEI.2>"#;

    let structure = detect_nikaya_structure(xml).unwrap();
    let fragments = parse_into_fragments(xml, &structure, "s0402m2.mul.xml", &ParserOverrides::default(), false).unwrap();

    // Find the sutta fragment
    let sutta_frag = fragments.iter()
        .find(|f| matches!(f.frag_type, FragmentType::Sutta))
        .expect("Should have a sutta fragment");

    // Check CST fields
    assert_eq!(sutta_frag.cst_file.as_str(), "s0402m2.mul.xml");
    assert_eq!(sutta_frag.cst_code.as_deref(), Some("an3.1.1.1"));
    assert_eq!(sutta_frag.cst_vagga.as_deref(), Some("1. Bālavaggo"));
    assert_eq!(sutta_frag.cst_sutta.as_deref(), Some("1. Bhayasuttaṃ"));
    assert_eq!(sutta_frag.cst_paranum.as_deref(), Some("1"));
}

#[test]
fn test_cst_fields_an_tika() {
    // Test CST field derivation for AN tika/commentary files
    // These use <p> tags instead of <div> tags for pannasaka and vagga
    let xml = r#"<?xml version="1.0" encoding="UTF-8"?>
<TEI.2>
<text>
<body>
<div id="an2" n="an2" type="book">
<p rend="nikaya">Aṅguttaranikāye</p>
<head rend="book">Dukanipāta-ṭīkā</head>
<p rend="title">1. Paṭhamapaṇṇāsakaṃ</p>
<p rend="chapter">1. Kammakāraṇavaggo</p>
<p rend="subhead">1. Vajjasuttavaṇṇanā</p>
<p rend="bodytext" n="1"><hi rend="paranum">1</hi>Dukanipātassa paṭhame</p>
<p rend="subhead">2. Padhānasuttavaṇṇanā</p>
<p rend="bodytext" n="2"><hi rend="paranum">2</hi>Dutiye</p>
</div>
</body>
</text>
</TEI.2>"#;

    let structure = detect_nikaya_structure(xml).unwrap();
    let fragments = parse_into_fragments(xml, &structure, "s0402t.tik.xml", &ParserOverrides::default(), false).unwrap();

    let sutta_fragments: Vec<_> = fragments.iter()
        .filter(|f| matches!(f.frag_type, FragmentType::Sutta))
        .collect();

    // Should have at least 2 sutta fragments
    assert!(sutta_fragments.len() >= 2, "Should have at least 2 sutta fragments");

    // Find first actual sutta (not preamble)
    let sutta1 = sutta_fragments.iter()
        .find(|f| f.cst_code.is_some() && f.cst_sutta.as_ref().map(|s| s.contains("Vajjasuttavaṇṇanā")).unwrap_or(false))
        .expect("Should find first sutta");

    // Check CST fields for first sutta
    assert_eq!(sutta1.cst_code.as_deref(), Some("an2.1.1.1"));
    assert_eq!(sutta1.cst_vagga.as_deref(), Some("1. Kammakāraṇavaggo"));
    assert_eq!(sutta1.cst_sutta.as_deref(), Some("1. Vajjasuttavaṇṇanā"));

    // Find second sutta
    let sutta2 = sutta_fragments.iter()
        .find(|f| f.cst_sutta.as_ref().map(|s| s.contains("Padhānasuttavaṇṇanā")).unwrap_or(false))
        .expect("Should find second sutta");

    // Check CST fields for second sutta
    assert_eq!(sutta2.cst_code.as_deref(), Some("an2.1.1.2"));
    assert_eq!(sutta2.cst_vagga.as_deref(), Some("1. Kammakāraṇavaggo"));
    assert_eq!(sutta2.cst_sutta.as_deref(), Some("2. Padhānasuttavaṇṇanā"));
}

#[test]
fn test_cst_fields_an_tika_multi_vagga() {
    // Test that AN tika files properly split fragments on <p rend="chapter"> Vagga boundaries
    // This regression test ensures we don't have a single fragment spanning multiple vaggas
    let xml = r#"<?xml version="1.0" encoding="UTF-8"?>
<TEI.2>
<text>
<body>
<div id="an2" n="an2" type="book">
<p rend="nikaya">Aṅguttaranikāye</p>
<head rend="book">Dukanipāta-ṭīkā</head>
<p rend="title">1. Paṭhamapaṇṇāsakaṃ</p>
<p rend="chapter">1. Kammakāraṇavaggo</p>
<p rend="subhead">1. Vajjasuttavaṇṇanā</p>
<p rend="bodytext" n="1"><hi rend="paranum">1</hi>First vagga first sutta content</p>
<p rend="chapter">2. Adhikaraṇavaggavaṇṇanā</p>
<p rend="bodytext" n="11"><hi rend="paranum">11</hi>Second vagga content without sutta subhead</p>
<p rend="chapter">3. Bālavaggavaṇṇanā</p>
<p rend="bodytext" n="22"><hi rend="paranum">22</hi>Third vagga content without sutta subhead</p>
</div>
</body>
</text>
</TEI.2>"#;

    let structure = detect_nikaya_structure(xml).unwrap();
    let fragments = parse_into_fragments(xml, &structure, "s0402t.tik.xml", &ParserOverrides::default(), false).unwrap();

    let sutta_fragments: Vec<_> = fragments.iter()
        .filter(|f| matches!(f.frag_type, FragmentType::Sutta))
        .collect();

    // Should have at least 3 fragments (one for each vagga)
    assert!(sutta_fragments.len() >= 3, "Should have at least 3 sutta fragments, got {}", sutta_fragments.len());

    // Verify each fragment contains at most 1 chapter marker (its own vagga title)
    for frag in &sutta_fragments {
        let chapter_count = frag.content_xml.matches("rend=\"chapter\"").count();
        assert!(chapter_count <= 1,
            "Fragment should contain at most 1 chapter marker, found {} in fragment with vagga: {:?}",
            chapter_count, frag.cst_vagga);
    }

    // Find fragment with first vagga
    let vagga1_frag = sutta_fragments.iter()
        .find(|f| f.cst_vagga.as_ref().map(|v| v.contains("Kammakāraṇavaggo")).unwrap_or(false))
        .expect("Should find fragment with first vagga");

    assert_eq!(vagga1_frag.cst_code.as_deref(), Some("an2.1.1.1"));
    assert_eq!(vagga1_frag.cst_vagga.as_deref(), Some("1. Kammakāraṇavaggo"));
    assert_eq!(vagga1_frag.cst_sutta.as_deref(), Some("1. Vajjasuttavaṇṇanā"));

    // Find fragment with second vagga
    let vagga2_frag = sutta_fragments.iter()
        .find(|f| f.cst_vagga.as_ref().map(|v| v.contains("Adhikaraṇavaggavaṇṇanā")).unwrap_or(false))
        .expect("Should find fragment with second vagga");

    assert_eq!(vagga2_frag.cst_code.as_deref(), Some("an2.1.2.0"));
    assert_eq!(vagga2_frag.cst_vagga.as_deref(), Some("2. Adhikaraṇavaggavaṇṇanā"));
    assert_eq!(vagga2_frag.cst_sutta, None); // No sutta subhead

    // Find fragment with third vagga
    let vagga3_frag = sutta_fragments.iter()
        .find(|f| f.cst_vagga.as_ref().map(|v| v.contains("Bālavaggavaṇṇanā")).unwrap_or(false))
        .expect("Should find fragment with third vagga");

    assert_eq!(vagga3_frag.cst_code.as_deref(), Some("an2.1.3.0"));
    assert_eq!(vagga3_frag.cst_vagga.as_deref(), Some("3. Bālavaggavaṇṇanā"));
    assert_eq!(vagga3_frag.cst_sutta, None); // No sutta subhead
}

#[test]
fn tika_fragments_never_repeat_a_level_type() {
    for xml in [tika_dn_sample_xml(), tika_mn_sample_xml()] {
        let structure = detect_nikaya_structure(&xml).unwrap();
        let fragments =
            parse_into_fragments(&xml, &structure, "s0201a.att.xml", &ParserOverrides::default(), false)
                .unwrap();
        assert!(fragments.iter().any(|f| !f.group_levels.is_empty()));
        for f in &fragments {
            for (i, a) in f.group_levels.iter().enumerate() {
                for b in f.group_levels.iter().skip(i + 1) {
                    assert!(a.group_type != b.group_type);
                }
                if i > 0 {
                    assert!(a.group_type != GroupType::Nikaya);
                }
            }
        }
    }
}
