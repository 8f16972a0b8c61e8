use imgmeta::report::{exif_value_json, to_json};
use imgmeta::{ExifTag, ExifValue, Format, ImageMetadata};

#[test]
fn renders_full_metadata_as_json() {
    let meta = ImageMetadata {
        format: Format::Png,
        width: 10,
        height: 20,
        exif: vec![ExifTag {
            id: 0x0112,
            value: ExifValue::Short(vec![1]),
        }],
        text: vec![("Comment".to_string(), "hi \"there\"".to_string())],
    };

    assert_eq!(
        to_json(&meta, &vec![vec![]]),
        r#"{"format":"png","width":10,"height":20,"exif":[{"id":"0x0112","type":"Short","value":[1]}],"text":[{"keyword":"Comment","value":"hi \"there\""}]}"#
    );
}

#[test]
fn renders_empty_jpeg_metadata() {
    let meta = ImageMetadata {
        format: Format::Jpeg,
        width: 0,
        height: 4294967295,
        exif: vec![],
        text: vec![],
    };
    assert_eq!(
        to_json(&meta, &vec![]),
        r#"{"format":"jpeg","width":0,"height":4294967295,"exif":[],"text":[]}"#
    );
}

#[test]
fn renders_several_tags_and_chunks() {
    let meta = ImageMetadata {
        format: Format::Jpeg,
        width: 640,
        height: 480,
        exif: vec![
            ExifTag { id: 0xa, value: ExifValue::Byte(vec![0, 255]) },
            ExifTag { id: 0xBEEF, value: ExifValue::Float(vec![0x3fc0_0000]) },
        ],
        text: vec![
            ("a".to_string(), "1".to_string()),
            ("b".to_string(), "tab\there".to_string()),
        ],
    };
    // Fewer float lists than tags: the missing ones count as empty.
    assert_eq!(
        to_json(&meta, &vec![vec![]]),
        r#"{"format":"jpeg","width":640,"height":480,"exif":[{"id":"0x000a","type":"Byte","value":[0,255]},{"id":"0xbeef","type":"Float","value":[]}],"text":[{"keyword":"a","value":"1"},{"keyword":"b","value":"tab\there"}]}"#
    );
    assert_eq!(
        to_json(&meta, &vec![vec![], vec!["1.5".to_string()]]),
        r#"{"format":"jpeg","width":640,"height":480,"exif":[{"id":"0x000a","type":"Byte","value":[0,255]},{"id":"0xbeef","type":"Float","value":[1.5]}],"text":[{"keyword":"a","value":"1"},{"keyword":"b","value":"tab\there"}]}"#
    );
}

#[test]
fn renders_each_value_kind() {
    let none: Vec<String> = vec![];
    assert_eq!(exif_value_json(&ExifValue::Byte(vec![]), &none), r#""type":"Byte","value":[]"#);
    assert_eq!(
        exif_value_json(&ExifValue::Ascii("Canon\n".to_string()), &none),
        r#""type":"Ascii","value":"Canon\n""#
    );
    assert_eq!(
        exif_value_json(&ExifValue::Short(vec![65535, 10]), &none),
        r#""type":"Short","value":[65535,10]"#
    );
    assert_eq!(
        exif_value_json(&ExifValue::Long(vec![4294967295]), &none),
        r#""type":"Long","value":[4294967295]"#
    );
    assert_eq!(
        exif_value_json(&ExifValue::Rational(vec![(72, 1), (1, 300)]), &none),
        r#""type":"Rational","value":[[72,1],[1,300]]"#
    );
    assert_eq!(
        exif_value_json(&ExifValue::SByte(vec![-128, 127]), &none),
        r#""type":"SByte","value":[-128,127]"#
    );
    assert_eq!(
        exif_value_json(&ExifValue::Undefined(vec![48, 50]), &none),
        r#""type":"Undefined","value":[48,50]"#
    );
    assert_eq!(
        exif_value_json(&ExifValue::SShort(vec![-32768]), &none),
        r#""type":"SShort","value":[-32768]"#
    );
    assert_eq!(
        exif_value_json(&ExifValue::SLong(vec![-2147483648, 0]), &none),
        r#""type":"SLong","value":[-2147483648,0]"#
    );
    assert_eq!(
        exif_value_json(&ExifValue::SRational(vec![(-1, 3)]), &none),
        r#""type":"SRational","value":[[-1,3]]"#
    );
    let floats = vec!["0.5".to_string(), "-2".to_string()];
    assert_eq!(
        exif_value_json(&ExifValue::Double(vec![0, 1]), &floats),
        r#""type":"Double","value":[0.5,-2]"#
    );
}
