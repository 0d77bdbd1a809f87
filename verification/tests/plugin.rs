use image_processor::plugin::{
    prepare_params, ParamsError, ParamsText, STATUS_BAD_PARAMS, STATUS_FAILED,
    STATUS_NULL_BUFFER, STATUS_OK,
};

#[test]
fn params_missing_means_defaults() {
    assert_eq!(prepare_params(None), Ok(ParamsText::Defaults));
}

#[test]
fn params_empty_or_blank_means_defaults() {
    assert_eq!(prepare_params(Some(b"")), Ok(ParamsText::Defaults));
    assert_eq!(prepare_params(Some(b" \t\r\n ")), Ok(ParamsText::Defaults));
    // U+3000 IDEOGRAPHIC SPACE and U+00A0 NO-BREAK SPACE are white space too.
    assert_eq!(prepare_params(Some("\u{3000}\u{a0}".as_bytes())), Ok(ParamsText::Defaults));
}

#[test]
fn params_text_is_trimmed() {
    assert_eq!(
        prepare_params(Some(b"  {\"radius\": 5, \"iterations\": 4}\n")),
        Ok(ParamsText::Json("{\"radius\": 5, \"iterations\": 4}".to_string()))
    );
    assert_eq!(prepare_params(Some(b"{}")), Ok(ParamsText::Json("{}".to_string())));
    assert_eq!(
        prepare_params(Some(" {\"horizontal\": true} ".as_bytes())),
        Ok(ParamsText::Json("{\"horizontal\": true}".to_string()))
    );
}

#[test]
fn params_must_be_utf8() {
    assert_eq!(prepare_params(Some(&[0x7b, 0xff, 0x7d])), Err(ParamsError::InvalidUtf8));
    // An overlong encoding of '/'.
    assert_eq!(prepare_params(Some(&[0xc0, 0xaf])), Err(ParamsError::InvalidUtf8));
    // A lone surrogate.
    assert_eq!(prepare_params(Some(&[0xed, 0xa0, 0x80])), Err(ParamsError::InvalidUtf8));
}

#[test]
fn status_codes() {
    assert_eq!(STATUS_OK, 0);
    assert_eq!(STATUS_NULL_BUFFER, -1);
    assert_eq!(STATUS_BAD_PARAMS, -2);
    assert_eq!(STATUS_FAILED, -999);
}
