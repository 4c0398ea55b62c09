use hard_xml::{xml_unescape, XmlError, XmlReader, XmlResult};

#[test]
fn round_trip_attribute_and_text() -> XmlResult<()> {
    let mut reader = XmlReader::new(r#"<e attr="v">a &lt;b&gt; &amp; c</e>"#);
    assert!(reader.next().is_some()); // "<e"
    let (key, value) = reader.find_attribute()?.unwrap();
    assert_eq!(key, "attr");
    assert_eq!(value.as_str(), "v");
    assert!(reader.find_attribute()?.is_none());
    assert_eq!(reader.read_text("e")?.as_str(), "a <b> & c");
    assert!(reader.next().is_none());

    let mut reader = XmlReader::new(r#"<e attr="v"/>"#);
    assert!(reader.next().is_some()); // "<e"
    let (key, value) = reader.find_attribute()?.unwrap();
    assert_eq!((key, value.as_str()), ("attr", "v"));
    assert!(reader.find_attribute()?.is_none());
    assert_eq!(reader.read_text("e")?.as_str(), "");
    assert!(reader.next().is_none());
    Ok(())
}

#[test]
fn peek_does_not_consume() {
    let mut reader = XmlReader::new("<a>x</a>");
    let first = reader.peek();
    let second = reader.peek();
    assert!(first.is_some());
    assert_eq!(first, second);
    assert_eq!(reader.next(), first);
    let third = reader.peek();
    assert_ne!(third, first);
    assert_eq!(reader.next(), third);
}

#[test]
fn empty_content_forms() -> XmlResult<()> {
    for text in ["<p></p>", "<p/>", "<p><![CDATA[]]></p>"] {
        let mut reader = XmlReader::new(text);
        assert!(reader.next().is_some()); // "<p"
        assert_eq!(reader.read_text("p")?.as_str(), "");
        assert!(reader.next().is_none());
    }
    Ok(())
}

#[test]
fn text_is_decoded_cdata_is_not() -> XmlResult<()> {
    let mut reader = XmlReader::new("<p>&quot;&apos;&lt;&gt;&amp;</p>");
    assert!(reader.next().is_some());
    assert_eq!(reader.read_text("p")?.as_str(), "\"'<>&");

    let mut reader = XmlReader::new("<p><![CDATA[&quot;&apos;&lt;&gt;&amp;]]></p>");
    assert!(reader.next().is_some());
    let value = reader.read_text("p")?;
    assert_eq!(value.as_str(), "&quot;&apos;&lt;&gt;&amp;");
    assert!(value.is_borrowed());
    Ok(())
}

#[test]
fn last_text_run_wins() -> XmlResult<()> {
    let mut reader = XmlReader::new("<p>one<![CDATA[two]]></p>");
    assert!(reader.next().is_some());
    assert_eq!(reader.read_text("p")?.as_str(), "two");
    Ok(())
}

#[test]
fn skip_same_name_nesting() -> XmlResult<()> {
    for text in [
        "<r><p><p></p></p><s/></r>",
        "<r><p><p/></p><s/></r>",
        "<r><p><p><p a=\"1\"><p/></p></p></p><s/></r>",
    ] {
        let mut reader = XmlReader::new(text);
        assert!(reader.next().is_some()); // "<r"
        assert!(reader.next().is_some()); // ">"
        assert!(reader.next().is_some()); // "<p"
        reader.read_to_end("p")?;
        assert_eq!(reader.find_element_start(Some("r"))?, Some("s"));
        reader.read_till_element_start("s")?;
        reader.read_to_end("s")?;
        assert_eq!(reader.find_element_start(Some("r"))?, None);
        assert!(reader.next().is_none());
    }
    Ok(())
}

#[test]
fn close_of_other_tag_is_mismatch() {
    let mut reader = XmlReader::new("<a><b></a>");
    assert!(reader.next().is_some()); // "<a"
    assert!(reader.next().is_some()); // ">"
    assert!(reader.next().is_some()); // "<b"
    match reader.read_text("b") {
        Err(XmlError::TagMismatch { expected, found }) => {
            assert_eq!(expected, "b");
            assert_eq!(found, "a");
        }
        other => panic!("unexpected result: {:?}", other),
    }

    let mut reader = XmlReader::new("<a><b></a>");
    for _ in 0..4 {
        assert!(reader.next().is_some()); // "<a", ">", "<b", ">"
    }
    match reader.find_element_start(Some("b")) {
        Err(XmlError::TagMismatch { expected, found }) => {
            assert_eq!(expected, "b");
            assert_eq!(found, "a");
        }
        other => panic!("unexpected result: {:?}", other),
    }
}

#[test]
fn skip_to_target_child() -> XmlResult<()> {
    let mut reader = XmlReader::new("<parent><skip/><skip2><x/></skip2><target/></parent>");
    assert!(reader.next().is_some()); // "<parent"
    assert!(reader.next().is_some()); // ">"
    reader.read_till_element_start("target")?;
    assert!(reader.find_attribute()?.is_none());
    assert_eq!(reader.read_text("target")?.as_str(), "");
    assert_eq!(reader.find_element_start(Some("parent"))?, None);
    assert!(reader.next().is_none());
    Ok(())
}

#[test]
fn end_of_stream_is_an_error() {
    let mut reader = XmlReader::new("<a/>");
    assert!(reader.next().is_some());
    assert!(reader.next().is_some());
    assert!(matches!(reader.read_text("a"), Err(XmlError::UnexpectedEof)));
    assert!(matches!(reader.read_to_end("a"), Err(XmlError::UnexpectedEof)));
    assert!(matches!(reader.read_till_element_start("a"), Err(XmlError::UnexpectedEof)));
    assert!(matches!(reader.find_attribute(), Err(XmlError::UnexpectedEof)));
    assert!(matches!(reader.find_element_start(None), Err(XmlError::UnexpectedEof)));
}

#[test]
fn misplaced_tokens_are_errors() {
    let mut reader = XmlReader::new("<a>text</a>");
    assert!(reader.next().is_some()); // "<a"
    assert!(reader.next().is_some()); // ">"
    assert!(matches!(reader.find_attribute(), Err(XmlError::UnexpectedToken { .. })));

    let mut reader = XmlReader::new("<a>text</a>");
    assert!(reader.next().is_some()); // "<a"
    assert!(reader.next().is_some()); // ">"
    assert!(matches!(
        reader.read_till_element_start("b"),
        Err(XmlError::UnexpectedToken { .. })
    ));

    let mut reader = XmlReader::new("<a>text</a>");
    assert!(reader.next().is_some()); // "<a"
    assert!(matches!(reader.find_element_start(None), Err(XmlError::UnexpectedToken { .. })));

    let mut reader = XmlReader::new("<a>text</a>");
    assert!(reader.next().is_some()); // "<a"
    assert!(reader.next().is_some()); // ">"
    assert!(matches!(reader.read_to_end("a"), Err(XmlError::UnexpectedToken { .. })));
}

#[test]
fn lexical_error_is_passed_on() {
    let mut reader = XmlReader::new("<a><</a>");
    assert!(reader.next().is_some()); // "<a"
    assert!(matches!(reader.read_text("a"), Err(XmlError::Parser(_))));
}

#[test]
fn character_references() {
    let value = xml_unescape("&#65;&#x42;&#x63;").unwrap();
    assert_eq!(value.as_str(), "ABc");
    assert!(!value.is_borrowed());

    let value = xml_unescape("plain text").unwrap();
    assert_eq!(value.as_str(), "plain text");
    assert!(value.is_borrowed());

    assert_eq!(xml_unescape("").unwrap().as_str(), "");
    assert_eq!(xml_unescape("&#x10FFFF;").unwrap().as_str(), "\u{10FFFF}");
}

#[test]
fn bad_references_are_errors() {
    match xml_unescape("a &foo; b") {
        Err(XmlError::UnrecognizedSymbol { symbol }) => assert_eq!(symbol, "foo"),
        other => panic!("unexpected result: {:?}", other),
    }
    match xml_unescape("a &amp") {
        Err(XmlError::UnterminatedEntity { entity }) => assert_eq!(entity, "&amp"),
        other => panic!("unexpected result: {:?}", other),
    }
    assert!(matches!(xml_unescape("&#xD800;"), Err(XmlError::UnrecognizedSymbol { .. })));
    assert!(matches!(xml_unescape("&#;"), Err(XmlError::UnrecognizedSymbol { .. })));
    assert!(matches!(xml_unescape("&#99999999999;"), Err(XmlError::UnrecognizedSymbol { .. })));
}

#[test]
fn skip_mixed_content_and_comments() -> XmlResult<()> {
    let mut reader =
        XmlReader::new("<r><!-- c --><a x=\"1\"><a><b>t</b><a/></a>u<c><a></a></c></a><target/></r>");
    assert!(reader.next().is_some()); // "<r"
    assert!(reader.next().is_some()); // ">"
    reader.read_till_element_start("target")?;
    assert!(reader.next().is_some()); // "/>"
    assert_eq!(reader.find_element_start(Some("r"))?, None);
    assert!(reader.next().is_none());
    Ok(())
}
