use xmlrpc_server::parse;
use xmlrpc_server::value::{CallValue, ResponseValue, Value};

const BAD_DATA: &str = "Bad data provided";

fn foo_bar_struct() -> Value {
    Value::Struct(vec![
        ("bar".to_string(), Value::String("baz".into())),
        ("foo".to_string(), Value::Int(42)),
    ])
}

#[test]
fn reads_pod_xml_value() {
    let data = r#"<?xml version="1.0"?><string>South Dakota</string>"#;
    let data = parse::xml(data.as_bytes()).expect(BAD_DATA);
    assert_eq!(data, Value::String("South Dakota".into()));
    let data = r#"<?xml version="1.0"?><string />"#;
    let data = parse::xml(data.as_bytes()).expect(BAD_DATA);
    assert_eq!(data, Value::String("".into()));
    let data = r#"<?xml version="1.0"?><string></string>"#;
    let data = parse::xml(data.as_bytes()).expect(BAD_DATA);
    assert_eq!(data, Value::String("".into()));

    let data = r#"<?xml version="1.0"?><int>-33</int>"#;
    let data = parse::xml(data.as_bytes()).expect(BAD_DATA);
    assert_eq!(data, Value::Int(-33));
    let data = r#"<?xml version="1.0"?><i4>-33</i4>"#;
    let data = parse::xml(data.as_bytes()).expect(BAD_DATA);
    assert_eq!(data, Value::Int(-33));

    let data = r#"<?xml version="1.0"?><boolean>1</boolean>"#;
    let data = parse::xml(data.as_bytes()).expect(BAD_DATA);
    assert_eq!(data, Value::Bool(true));
    let data = r#"<?xml version="1.0"?><boolean>0</boolean>"#;
    let data = parse::xml(data.as_bytes()).expect(BAD_DATA);
    assert_eq!(data, Value::Bool(false));

    let data = r#"<?xml version="1.0"?><double>-44.2</double>"#;
    let data = parse::xml(data.as_bytes()).expect(BAD_DATA);
    match data {
        Value::Double(text) => assert_eq!(text.parse::<f64>().expect(BAD_DATA), -44.2),
        other => panic!("not a double: {:?}", other),
    }

    let data = r#"<?xml version="1.0"?><dateTime.iso8601>33</dateTime.iso8601>"#;
    let data = parse::xml(data.as_bytes()).expect(BAD_DATA);
    assert_eq!(data, Value::DateTime("33".into()));

    let data = r#"<?xml version="1.0"?><base64>ASDF=</base64>"#;
    let data = parse::xml(data.as_bytes()).expect(BAD_DATA);
    assert_eq!(data, Value::Base64("ASDF=".into()));
}

#[test]
fn reads_array_xml_value() {
    let data = r#"<?xml version="1.0"?>
<array>
    <data>
        <value><i4>33</i4></value>
        <value><i4>-12</i4></value>
        <value><i4>44</i4></value>
    </data>
</array>"#;
    let data = parse::xml(data.as_bytes()).expect(BAD_DATA);
    assert_eq!(
        data,
        Value::Array(vec![Value::Int(33), Value::Int(-12), Value::Int(44)])
    );
}

#[test]
fn reads_struct_xml_value() {
    let data = r#"<?xml version="1.0"?>
<struct>
    <member>
        <name>foo</name>
        <value><i4>42</i4></value>
    </member>
    <member>
        <name>bar</name>
        <value><string>baz</string></value>
    </member>
</struct>"#;
    let data = parse::xml(data.as_bytes()).expect(BAD_DATA);
    assert_eq!(data, foo_bar_struct());
}

#[test]
fn reads_response() {
    let params = vec![Value::String("South Dakota".into()), foo_bar_struct()];
    let data = r#"<?xml version="1.0"?>
<methodResponse>
    <params>
        <param>
            <value><string>South Dakota</string></value>
        </param>
        <param>
            <value>
                <struct>
                    <member>
                        <name>foo</name>
                        <value><i4>42</i4></value>
                    </member>
                    <member>
                        <name>bar</name>
                        <value><string>baz</string></value>
                    </member>
                </struct>
            </value>
        </param>
    </params>
</methodResponse>"#;
    let data = parse::response_value(data.as_bytes()).expect(BAD_DATA);
    assert_eq!(data, ResponseValue::Success { params: params });
}

#[test]
fn reads_fault() {
    let data = r#"<?xml version="1.0"?>
<methodResponse>
    <fault>
        <value>
            <struct>
                <member>
                    <name>faultCode</name>
                    <value><int>4</int></value>
                </member>
                <member>
                    <name>faultString</name>
                    <value><string>Too many parameters.</string></value>
                </member>
            </struct>
        </value>
    </fault>
</methodResponse>"#;
    let data = parse::response_value(data.as_bytes()).expect(BAD_DATA);
    assert_eq!(
        data,
        ResponseValue::Fault {
            code: 4,
            message: "Too many parameters.".into(),
        }
    );
}

#[test]
fn reads_call() {
    let data = r#"<?xml version="1.0"?>
<methodCall>
    <methodName>foobar</methodName>
    <params>
        <param>
            <value><string>South Dakota</string></value>
        </param>
        <param>
            <value>
                <struct>
                    <member>
                        <name>foo</name>
                        <value><i4>42</i4></value>
                    </member>
                    <member>
                        <name>bar</name>
                        <value><string>baz</string></value>
                    </member>
                </struct>
            </value>
        </param>
    </params>
</methodCall>"#;
    let data = parse::call_value(data.as_bytes()).expect(BAD_DATA);
    assert_eq!(data.name, String::from("foobar"));
    assert_eq!(
        data.params,
        vec![Value::String("South Dakota".into()), foo_bar_struct()]
    );
}

fn ser_and_de(value: Value) {
    ser_and_de_response_value(ResponseValue::Success { params: vec![value] });
}

fn ser_and_de_call_value(value: CallValue) {
    let data = value.to_xml();
    let data = parse::call_value(&data).expect(BAD_DATA);
    assert_eq!(value, data);
}

fn ser_and_de_response_value(value: ResponseValue) {
    let data = value.to_xml();
    let data = parse::response_value(&data).expect(BAD_DATA);
    assert_eq!(value, data);
}

#[test]
fn writes_pod_xml_value() {
    ser_and_de(Value::String("South Dakota".into()));
    ser_and_de(Value::String("".into()));
    ser_and_de(Value::String("".into()));
    ser_and_de(Value::Int(-33));
    ser_and_de(Value::Int(-33));
    ser_and_de(Value::Bool(true));
    ser_and_de(Value::Bool(false));
    ser_and_de(Value::Double(format!("{}", -44.2f64)));
    ser_and_de(Value::DateTime("33".into()));
    ser_and_de(Value::Base64("ASDF=".into()));
}

#[test]
fn writes_array_xml_value() {
    ser_and_de(Value::Array(
        vec![Value::Int(33), Value::Int(-12), Value::Int(44)],
    ));
}

#[test]
fn writes_struct_xml_value() {
    ser_and_de(foo_bar_struct());
}

#[test]
fn writes_response() {
    let params = vec![Value::String("South Dakota".into()), foo_bar_struct()];
    ser_and_de_response_value(ResponseValue::Success { params: params })
}

#[test]
fn writes_fault() {
    ser_and_de_response_value(ResponseValue::Fault {
        code: 4,
        message: "Too many parameters.".into(),
    });
}

#[test]
fn writes_call() {
    ser_and_de_call_value(CallValue {
        name: String::from("foobar"),
        params: vec![Value::String("South Dakota".into()), foo_bar_struct()],
    });
}
