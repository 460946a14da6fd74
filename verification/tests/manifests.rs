use process_icon::manifest::{
    candidates_from_events, extract_logo_candidates, extract_scale, extract_targetsize, find_best_variant,
    find_manifest_dir, get_attr, resolve_from_manifest, VariantFile, TARGET_PX,
};
use process_icon::xml::{read_xml_events, XmlAttribute, XmlEvent, XmlTag};
use quick_xml::events::Event;
use quick_xml::Reader;

/// The logo candidates as quick-xml's events give them, read directly.
fn candidates_by_quick_xml(manifest: &str) -> Vec<(String, Option<u32>)> {
    fn attr(e: &quick_xml::events::BytesStart, name: &[u8]) -> Option<String> {
        for attr in e.attributes().filter_map(Result::ok) {
            if attr.key.as_ref() == name {
                return String::from_utf8(attr.value.to_vec()).ok();
            }
        }
        None
    }
    let mut visual_elements = Vec::new();
    let mut package_logo: Option<String> = None;
    let mut reader = Reader::from_str(manifest);
    let mut inside_logo = false;
    loop {
        match reader.read_event() {
            Ok(Event::Empty(ref e) | Event::Start(ref e)) => {
                let name = e.local_name();
                let name = name.as_ref();
                if name == b"VisualElements" {
                    for (a, base) in [(b"Square44x44Logo".as_slice(), 44u32), (b"Square150x150Logo".as_slice(), 150)] {
                        if let Some(value) = attr(e, a) {
                            visual_elements.push((value, Some(base)));
                        }
                    }
                } else if name == b"Logo" {
                    inside_logo = true;
                }
            }
            Ok(Event::Text(ref t)) if inside_logo => {
                if let Ok(text) = t.unescape() {
                    let logo = text.trim().to_string();
                    if !logo.is_empty() {
                        package_logo = Some(logo);
                    }
                }
                inside_logo = false;
            }
            Ok(Event::End(ref e)) if e.local_name().as_ref() == b"Logo" => {
                inside_logo = false;
            }
            Ok(Event::Eof) => break,
            Err(_) => break,
            _ => {}
        }
    }
    if let Some(logo) = package_logo {
        visual_elements.push((logo, None));
    }
    visual_elements
}

/// The number after a marker, as `split`, `take_while` and `parse` give it.
fn number_by_std(name: &str, marker: &str) -> Option<u32> {
    let after = name.split(marker).nth(1)?;
    let num: String = after.chars().take_while(|c| c.is_ascii_digit()).collect();
    num.parse().ok()
}

const MANIFEST: &str = r#"<?xml version="1.0" encoding="utf-8"?>
<Package xmlns="http://schemas.microsoft.com/appx/manifest/foundation/windows10"
         xmlns:uap="http://schemas.microsoft.com/appx/manifest/uap/windows10">
  <Properties>
    <DisplayName>Calculator</DisplayName>
    <Logo>
      Assets\StoreLogo.png
    </Logo>
  </Properties>
  <Applications>
    <Application Id="App">
      <uap:VisualElements DisplayName="Calculator" Square150x150Logo="Assets\Medium.png"
          Square44x44Logo="Assets\App.png" Description="Calc" BackgroundColor="transparent"/>
    </Application>
  </Applications>
</Package>
"#;

#[test]
fn candidates_tile_logos_first_then_package_logo() {
    assert_eq!(
        extract_logo_candidates(MANIFEST),
        vec![
            ("Assets\\App.png".to_string(), Some(44)),
            ("Assets\\Medium.png".to_string(), Some(150)),
            ("Assets\\StoreLogo.png".to_string(), None),
        ]
    );
}

#[test]
fn candidates_of_an_empty_manifest() {
    assert!(extract_logo_candidates("").is_empty());
    assert!(extract_logo_candidates("<Package/>").is_empty());
}

#[test]
fn candidates_stop_at_an_error() {
    let manifest = "<Package><Properties><Logo>a.png</Logo></Wrong><VisualElements Square44x44Logo=\"b.png\"/></Package>";
    assert_eq!(extract_logo_candidates(manifest), vec![("a.png".to_string(), None)]);
}

#[test]
fn candidates_unescape_text_but_not_attributes() {
    let manifest = "<P><Logo>a&amp;b.png</Logo><VisualElements Square44x44Logo=\"c&amp;d.png\"/></P>";
    assert_eq!(
        extract_logo_candidates(manifest),
        vec![("c&amp;d.png".to_string(), Some(44)), ("a&b.png".to_string(), None)]
    );
}

#[test]
fn candidates_agree_with_quick_xml() {
    let pieces = [
        "<Logo>x.png</Logo>", "<Logo/>", "<Logo> </Logo>", "<a:Logo>y.png</a:Logo>", "text",
        "<VisualElements Square44x44Logo=\"s.png\" Square150x150Logo=\"m.png\"/>",
        "<VisualElements Square150x150Logo='m2.png'>", "</VisualElements>", "<VisualElements Square44x44Logo=\"a\" Square44x44Logo=\"b\"/>",
        "<!-- c -->", "<![CDATA[z.png]]>", "<Logo>", "</Logo>", "<Other>", "</Other>", "&bad;", "<Logo>&lt;q&gt;</Logo>",
    ];
    for a in &pieces {
        for b in &pieces {
            for c in &pieces {
                let doc = format!("<Package>{a}{b}{c}</Package>");
                assert_eq!(extract_logo_candidates(&doc), candidates_by_quick_xml(&doc), "document {doc:?}");
            }
        }
    }
}

#[test]
fn events_end_at_end_of_input() {
    let events = read_xml_events("<a>t</a>");
    assert!(matches!(events.last(), Some(XmlEvent::Eof)));
    assert_eq!(events.len(), 4);
}

#[test]
fn candidates_from_given_events() {
    let tag = XmlTag {
        local_name: b"VisualElements".to_vec(),
        attributes: vec![
            None,
            Some(XmlAttribute { key: b"Square150x150Logo".to_vec(), value: b"big.png".to_vec() }),
        ],
    };
    let events = vec![
        XmlEvent::Start(XmlTag { local_name: b"Logo".to_vec(), attributes: vec![] }),
        XmlEvent::Text(Some(" pkg.png ".to_string())),
        XmlEvent::Empty(tag),
        XmlEvent::Eof,
        XmlEvent::Start(XmlTag { local_name: b"Logo".to_vec(), attributes: vec![] }),
        XmlEvent::Text(Some("ignored.png".to_string())),
    ];
    assert_eq!(
        candidates_from_events(&events),
        vec![("big.png".to_string(), Some(150)), ("pkg.png".to_string(), None)]
    );
}

#[test]
fn attribute_lookup() {
    let tag = XmlTag {
        local_name: b"VisualElements".to_vec(),
        attributes: vec![
            None,
            Some(XmlAttribute { key: b"Square44x44Logo".to_vec(), value: "é.png".as_bytes().to_vec() }),
            Some(XmlAttribute { key: b"Square44x44Logo".to_vec(), value: b"second.png".to_vec() }),
            Some(XmlAttribute { key: b"Bad".to_vec(), value: vec![0xff, 0xfe] }),
        ],
    };
    assert_eq!(get_attr(&tag, "Square44x44Logo"), Some("é.png".to_string()));
    assert_eq!(get_attr(&tag, "Bad"), None);
    assert_eq!(get_attr(&tag, "Missing"), None);
}

#[test]
fn targetsize_and_scale() {
    assert_eq!(TARGET_PX, 64);
    assert_eq!(extract_targetsize("Logo.targetsize-64.png"), Some(64));
    assert_eq!(extract_targetsize("Logo.targetsize-256_altform-unplated.png"), Some(256));
    assert_eq!(extract_targetsize("Logo.scale-150.png"), None);
    assert_eq!(extract_scale("Logo.scale-150.png"), Some(150));
    assert_eq!(extract_targetsize("Logo.targetsize-.png"), None);
    assert_eq!(extract_targetsize("Logo.targetsize-007.png"), Some(7));
    assert_eq!(extract_targetsize("x.targetsize-4294967295.png"), Some(u32::MAX));
    assert_eq!(extract_targetsize("x.targetsize-4294967296.png"), None);
    assert_eq!(extract_targetsize("x.targetsize-99999999999999999999999.png"), None);
    assert_eq!(extract_targetsize("targetsize-16targetsize-32"), Some(16));
}

#[test]
fn numbers_read_back() {
    for n in [0u32, 7, 10, 64, 150, 99999, u32::MAX] {
        for (prefix, rest) in [("Logo.", ".png"), ("", ""), ("a-b.", "_x")] {
            let name = format!("{prefix}targetsize-{n}{rest}");
            assert_eq!(extract_targetsize(&name), Some(n));
            let name = format!("{prefix}scale-{n}{rest}");
            assert_eq!(extract_scale(&name), Some(n));
        }
    }
}

#[test]
fn numbers_agree_with_std() {
    let pieces = ["targetsize-", "scale-", "1", "64", "0", "x", "-", ".png", "99999999999", "é"];
    for a in &pieces {
        for b in &pieces {
            for c in &pieces {
                for d in &pieces {
                    let name = format!("{a}{b}{c}{d}");
                    assert_eq!(extract_targetsize(&name), number_by_std(&name, "targetsize-"), "{name:?}");
                    assert_eq!(extract_scale(&name), number_by_std(&name, "scale-"), "{name:?}");
                }
            }
        }
    }
}

fn file(name: &str) -> VariantFile {
    VariantFile { name: Some(name.to_string()), is_file: true }
}

#[test]
fn closest_variant_is_chosen() {
    let files = vec![
        file("Logo.png"),
        file("Logo.targetsize-16.png"),
        file("Logo.targetsize-256.png"),
        file("Logo.targetsize-48.png"),
        file("Logo.targetsize-80.png"),
    ];
    assert_eq!(find_best_variant("Logo", "png", None, &files), Some(3));
}

#[test]
fn scale_variants_use_the_base_size() {
    let files = vec![file("Logo.scale-100.png"), file("Logo.scale-150.png"), file("Logo.scale-200.png")];
    // 44 x 100% = 44, 44 x 150% = 66, 44 x 200% = 88
    assert_eq!(find_best_variant("Logo", "png", Some(44), &files), Some(1));
    // 150 x 100% = 150 is the closest of 150, 225, 300
    assert_eq!(find_best_variant("Logo", "png", Some(150), &files), Some(0));
    // without a base size no size is known: the first variant is taken
    assert_eq!(find_best_variant("Logo", "png", None, &files), Some(0));
}

#[test]
fn theme_and_contrast_variants_are_excluded() {
    let files = vec![
        file("Logo.targetsize-64_contrast-black.png"),
        file("Logo.targetsize-64_altform-lightunplated_Theme-Dark.png"),
        file("Logo.targetsize-32.png"),
    ];
    assert_eq!(find_best_variant("Logo", "png", None, &files), Some(2));
}

#[test]
fn non_files_and_other_names_are_skipped() {
    let files = vec![
        VariantFile { name: Some("Logo.targetsize-64.png".to_string()), is_file: false },
        VariantFile { name: None, is_file: true },
        file("Other.targetsize-64.png"),
        file("Logo.targetsize-64.jpg"),
        file("Logo.targetsize-60.png"),
    ];
    assert_eq!(find_best_variant("Logo", "png", None, &files), Some(4));
    assert_eq!(find_best_variant("Logo", "gif", None, &files), None);
    assert_eq!(find_best_variant("Logo", "png", None, &Vec::new()), None);
}

#[test]
fn ties_go_to_the_first() {
    let files = vec![file("Logo.targetsize-60.png"), file("Logo.targetsize-68.png"), file("Logo.targetsize-60-b.png")];
    assert_eq!(find_best_variant("Logo", "png", None, &files), Some(0));
}

#[test]
fn scaled_size_is_computed_exactly() {
    // 150 x 28633158 / 100 = 42949737: far from 64, so the 100 px variant wins
    // (a product wrapping at 2^32 would give 64).
    let files = vec![file("Logo.scale-28633158.png"), file("Logo.targetsize-100.png")];
    assert_eq!(find_best_variant("Logo", "png", Some(150), &files), Some(1));
}

#[test]
fn large_scaled_size_is_known() {
    // 44 x 99999999 / 100 = 43999999, a known size, closer than no size.
    let files = vec![file("Logo.png"), file("Logo.scale-99999999.png")];
    assert_eq!(find_best_variant("Logo", "png", Some(44), &files), Some(1));
    // a known size beyond u32 still ranks before an unknown one
    let files = vec![file("Logo.png"), file("Logo.scale-4294967295.png")];
    assert_eq!(find_best_variant("Logo", "png", Some(150), &files), Some(1));
}

#[test]
fn manifest_dir_is_the_first_with_a_manifest() {
    let has = [false, false, true, true];
    let mut asked = std::cell::RefCell::new(Vec::new());
    let r = find_manifest_dir(4, |i| {
        asked.borrow_mut().push(i);
        has[i]
    });
    assert_eq!(r, Some(2));
    assert_eq!(*asked.get_mut(), vec![0, 1, 2]);
    assert_eq!(find_manifest_dir(2, |i| has[i]), None);
    assert_eq!(find_manifest_dir(0, |_| true), None);
}

#[test]
fn manifest_resolution_prefers_variants_then_files_in_order() {
    let variants = [None, None, Some("v2"), Some("v3")];
    let files = [None, Some("f1"), Some("f2"), None];
    assert_eq!(resolve_from_manifest(4, |i| variants[i], |i| files[i]), Some("f1"));
    assert_eq!(resolve_from_manifest(4, |i| variants[i], |_| None::<&str>), Some("v2"));
    assert_eq!(resolve_from_manifest(1, |i| variants[i], |i| files[i]), None);
}
